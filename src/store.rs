//! The directed multigraph behind the engine, held in a `petgraph::Graph`.
//!
//! The graph's node weights are raw node identifiers and its edge weights raw
//! connection identifiers. Its contents are named by `graph_nodes` (node
//! weights in index order) and `graph_edges` (source index, target index and
//! weight of each edge, in edge-index order).

use petgraph::graph::{EdgeIndex, NodeIndex};
use petgraph::{Directed, Direction, Graph};
use vstd::multiset::Multiset;
use vstd::prelude::*;

verus! {

#[verifier::external_type_specification]
#[verifier::external_body]
#[verifier::reject_recursive_types(N)]
#[verifier::reject_recursive_types(E)]
#[verifier::reject_recursive_types(Ty)]
#[verifier::reject_recursive_types(Ix)]
pub struct ExGraph<N, E, Ty, Ix>(Graph<N, E, Ty, Ix>);

#[verifier::external_type_specification]
#[verifier::external_body]
pub struct ExDirected(Directed);

/// The concrete graph type: directed, with `usize` indices.
pub type Topology = Graph<u128, u128, Directed, usize>;

/// Node weights of the graph, in node-index order.
pub uninterp spec fn graph_nodes(g: Topology) -> Seq<u128>;

/// Edges of the graph in edge-index order, as (source index, target index, weight).
pub uninterp spec fn graph_edges(g: Topology) -> Seq<(usize, usize, u128)>;

/// The endpoints adjacent to node index `a` along the edges of `edges`: the
/// targets of its outgoing edges, or the sources of its incoming edges.
pub open spec fn adjacent(edges: Seq<(usize, usize, u128)>, a: usize, outgoing: bool) -> Seq<usize>
    decreases edges.len(),
{
    if edges.len() == 0 {
        Seq::empty()
    } else {
        let rest = adjacent(edges.drop_last(), a, outgoing);
        let e = edges.last();
        if outgoing && e.0 == a {
            rest.push(e.1)
        } else if !outgoing && e.1 == a {
            rest.push(e.0)
        } else {
            rest
        }
    }
}

/// Index `i` after the node at index `from` has moved to index `to`.
pub open spec fn moved(i: usize, from: usize, to: usize) -> usize {
    if i == from {
        to
    } else {
        i
    }
}

/// The number of edges of `edges` that enter node `v` from a node outside `done`.
pub open spec fn pending(edges: Seq<(usize, usize, u128)>, v: usize, done: Set<usize>) -> nat
    decreases edges.len(),
{
    if edges.len() == 0 {
        0
    } else {
        let e = edges.last();
        pending(edges.drop_last(), v, done) + if e.1 == v && !done.contains(e.0) {
            1nat
        } else {
            0nat
        }
    }
}

pub proof fn lemma_adjacent_contains(edges: Seq<(usize, usize, u128)>, a: usize, b: usize)
    ensures
        adjacent(edges, a, true).contains(b) <==> exists|k: int|
            0 <= k < edges.len() && (#[trigger] edges[k]).0 == a && edges[k].1 == b,
    decreases edges.len(),
{
    if edges.len() > 0 {
        let init = edges.drop_last();
        let rest = adjacent(init, a, true);
        let e = edges.last();
        lemma_adjacent_contains(init, a, b);
        assert(edges[edges.len() - 1] == e);
        if rest.contains(b) {
            let k = choose|k: int| 0 <= k < init.len() && (#[trigger] init[k]).0 == a && init[k].1 == b;
            assert(edges[k] == init[k]);
            let j = choose|j: int| 0 <= j < rest.len() && rest[j] == b;
            if e.0 == a {
                assert(rest.push(e.1)[j] == b);
            }
        }
        if e.0 == a {
            let full = rest.push(e.1);
            assert(adjacent(edges, a, true) == full);
            assert(full[rest.len() as int] == e.1);
            if full.contains(b) && !rest.contains(b) {
                let j = choose|j: int| 0 <= j < full.len() && full[j] == b;
                if j < rest.len() {
                    assert(rest[j] == full[j]);
                }
            }
        } else {
            assert(adjacent(edges, a, true) == rest);
        }
        if exists|k: int| 0 <= k < edges.len() && (#[trigger] edges[k]).0 == a && edges[k].1 == b {
            let k = choose|k: int| 0 <= k < edges.len() && (#[trigger] edges[k]).0 == a && edges[k].1 == b;
            if k < init.len() {
                assert(init[k] == edges[k]);
            } else {
                assert(adjacent(edges, a, true) == rest.push(e.1));
                assert(rest.push(e.1)[rest.len() as int] == b);
            }
        }
    }
}

pub proof fn lemma_pending_initial(edges: Seq<(usize, usize, u128)>, v: usize)
    ensures
        pending(edges, v, Set::empty()) == adjacent(edges, v, false).len(),
    decreases edges.len(),
{
    if edges.len() > 0 {
        lemma_pending_initial(edges.drop_last(), v);
    }
}

pub proof fn lemma_pending_finish(edges: Seq<(usize, usize, u128)>, v: usize, done: Set<usize>, u: usize)
    requires
        !done.contains(u),
    ensures
        pending(edges, v, done) == pending(edges, v, done.insert(u)) + adjacent(
            edges,
            u,
            true,
        ).to_multiset().count(v),
    decreases edges.len(),
{
    broadcast use vstd::seq_lib::group_to_multiset_ensures;

    if edges.len() == 0 {
        assert(adjacent(edges, u, true).to_multiset() =~= Multiset::empty());
    } else {
        lemma_pending_finish(edges.drop_last(), v, done, u);
    }
}

pub proof fn lemma_pending_zero(edges: Seq<(usize, usize, u128)>, v: usize, done: Set<usize>)
    ensures
        pending(edges, v, done) == 0 <==> forall|k: int|
            0 <= k < edges.len() && (#[trigger] edges[k]).1 == v ==> done.contains(edges[k].0),
    decreases edges.len(),
{
    if edges.len() > 0 {
        let init = edges.drop_last();
        lemma_pending_zero(init, v, done);
        if pending(edges, v, done) == 0 {
            assert forall|k: int| 0 <= k < edges.len() && (#[trigger] edges[k]).1 == v implies done.contains(
                edges[k].0,
            ) by {
                if k < init.len() {
                    assert(init[k] == edges[k]);
                }
            }
        }
        if forall|k: int| 0 <= k < edges.len() && (#[trigger] edges[k]).1 == v ==> done.contains(edges[k].0) {
            assert forall|k: int| 0 <= k < init.len() && (#[trigger] init[k]).1 == v implies done.contains(
                init[k].0,
            ) by {
                assert(init[k] == edges[k]);
            }
            assert(edges[edges.len() - 1] == edges.last());
        }
    }
}

/// Relies on `Graph::with_capacity`: the new graph has no nodes and no edges.
#[verifier::external_body]
pub(crate) fn topology_new() -> (g: Topology)
    ensures
        graph_nodes(g) == Seq::<u128>::empty(),
        graph_edges(g) == Seq::<(usize, usize, u128)>::empty(),
{
    Graph::with_capacity(0, 0)
}

/// Relies on `Graph::add_node`: the weight is appended and its index is the
/// former node count (no capacity panic with `usize` indices).
#[verifier::external_body]
pub(crate) fn topology_add_node(g: &mut Topology, w: u128) -> (r: usize)
    ensures
        graph_nodes(*final(g)) == graph_nodes(*old(g)).push(w),
        graph_edges(*final(g)) == graph_edges(*old(g)),
        r == graph_nodes(*old(g)).len(),
{
    g.add_node(w).index()
}

/// Relies on `Graph::node_count`: the number of nodes.
#[verifier::external_body]
pub(crate) fn topology_node_count(g: &Topology) -> (r: usize)
    ensures
        r == graph_nodes(*g).len(),
{
    g.node_count()
}

/// Relies on `Graph::edge_count`: the number of edges.
#[verifier::external_body]
pub(crate) fn topology_edge_count(g: &Topology) -> (r: usize)
    ensures
        r == graph_edges(*g).len(),
{
    g.edge_count()
}

/// Relies on `Graph::node_weight`: the weight at index `i`, if there is a node there.
#[verifier::external_body]
pub(crate) fn topology_node_weight(g: &Topology, i: usize) -> (r: Option<u128>)
    ensures
        i < graph_nodes(*g).len() ==> r == Some(graph_nodes(*g)[i as int]),
        i >= graph_nodes(*g).len() ==> r is None,
{
    g.node_weight(NodeIndex::new(i)).copied()
}

/// Relies on `Graph::edge_weight`: the weight of edge `e`, if there is one.
#[verifier::external_body]
pub(crate) fn topology_edge_weight(g: &Topology, e: usize) -> (r: Option<u128>)
    ensures
        e < graph_edges(*g).len() ==> r == Some(graph_edges(*g)[e as int].2),
        e >= graph_edges(*g).len() ==> r is None,
{
    g.edge_weight(EdgeIndex::new(e)).copied()
}

/// Relies on `Graph::add_edge`: the edge is appended and its index is the
/// former edge count. It panics on an endpoint that is not a node, which
/// `requires` excludes.
#[verifier::external_body]
pub(crate) fn topology_add_edge(g: &mut Topology, a: usize, b: usize, w: u128) -> (r: usize)
    requires
        a < graph_nodes(*old(g)).len(),
        b < graph_nodes(*old(g)).len(),
    ensures
        graph_nodes(*final(g)) == graph_nodes(*old(g)),
        graph_edges(*final(g)) == graph_edges(*old(g)).push((a, b, w)),
        r == graph_edges(*old(g)).len(),
{
    g.add_edge(NodeIndex::new(a), NodeIndex::new(b), w).index()
}

/// Relies on `Graph::remove_edge`: edge `e` is swap-removed (the last edge
/// takes its index) and its weight returned; nothing changes when there is
/// no edge `e`.
#[verifier::external_body]
pub(crate) fn topology_remove_edge(g: &mut Topology, e: usize) -> (r: Option<u128>)
    ensures
        graph_nodes(*final(g)) == graph_nodes(*old(g)),
        e < graph_edges(*old(g)).len() ==> {
            &&& r == Some(graph_edges(*old(g))[e as int].2)
            &&& graph_edges(*final(g)) == graph_edges(*old(g)).update(
                e as int,
                graph_edges(*old(g)).last(),
            ).drop_last()
        },
        e >= graph_edges(*old(g)).len() ==> r is None && graph_edges(*final(g)) == graph_edges(
            *old(g),
        ),
{
    g.remove_edge(EdgeIndex::new(e))
}

/// Relies on `Graph::remove_node`, for a node that no edge touches: the node
/// is swap-removed (the last node takes its index), the edges of the moved
/// node are renumbered, and its weight is returned.
#[verifier::external_body]
pub(crate) fn topology_remove_node(g: &mut Topology, a: usize) -> (r: Option<u128>)
    requires
        a < graph_nodes(*old(g)).len(),
        forall|k: int|
            0 <= k < graph_edges(*old(g)).len() ==> (#[trigger] graph_edges(*old(g))[k]).0 != a
                && graph_edges(*old(g))[k].1 != a,
    ensures
        r == Some(graph_nodes(*old(g))[a as int]),
        graph_nodes(*final(g)) == graph_nodes(*old(g)).update(
            a as int,
            graph_nodes(*old(g)).last(),
        ).drop_last(),
        graph_edges(*final(g)) == graph_edges(*old(g)).map_values(
            |e: (usize, usize, u128)|
                (
                    moved(e.0, (graph_nodes(*old(g)).len() - 1) as usize, a),
                    moved(e.1, (graph_nodes(*old(g)).len() - 1) as usize, a),
                    e.2,
                ),
        ),
{
    g.remove_node(NodeIndex::new(a))
}

/// Relies on `Graph::neighbors_directed` on a directed graph: the targets of
/// the outgoing edges of `a`, or the sources of its incoming edges, one per
/// edge, in an order of the graph's choosing.
#[verifier::external_body]
pub(crate) fn topology_neighbors(g: &Topology, a: usize, outgoing: bool) -> (r: Vec<usize>)
    ensures
        r@.to_multiset() == adjacent(graph_edges(*g), a, outgoing).to_multiset(),
{
    let dir = if outgoing {
        Direction::Outgoing
    } else {
        Direction::Incoming
    };
    g.neighbors_directed(NodeIndex::new(a), dir).map(|n| n.index()).collect()
}

} // verus!
