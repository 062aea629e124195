//! Properties of the graph engine that hold across its operations.

use crate::graph::{topological, NodeGraph};
use crate::ids::NodeId;
use crate::paths::{acyclic, is_path, lemma_reaches_self, linked, marked, spread};
use vstd::prelude::*;

verus! {

/// Whatever sequence of accepted mutations produced a graph, no directed
/// cycle runs through its connections: every operation keeps the graph
/// well formed, and a well-formed graph is acyclic.
pub proof fn law_no_cycles(g: &NodeGraph)
    requires
        g.wf(),
    ensures
        acyclic(g.conns()),
{
    g.lemma_consistent();
}

/// After any mutation, the source of every connection comes strictly before
/// its target in the evaluation order.
pub proof fn law_order_respects_connections(g: &NodeGraph)
    requires
        g.wf(),
    ensures
        forall|c: u128, i: int, j: int|
            #![trigger g.conns()[c], g.order()[i], g.order()[j]]
            g.conns().contains_key(c) && 0 <= i < g.order().len() && 0 <= j < g.order().len()
                && g.order()[i].0 == g.conns()[c].from_node.0 && g.order()[j].0
                == g.conns()[c].to_node.0 ==> i < j,
{
    g.lemma_consistent();
    assert(topological(g.order(), g.nodes(), g.conns()));
}

/// The evaluation order holds every live node exactly once, and nothing else.
pub proof fn law_order_complete(g: &NodeGraph)
    requires
        g.wf(),
    ensures
        g.order().no_duplicates(),
        forall|i: int| 0 <= i < g.order().len() ==> g.nodes().contains(#[trigger] g.order()[i].0),
        forall|n: u128| #[trigger] g.nodes().contains(n) ==> exists|i: int| 0 <= i < g.order().len() && g.order()[i].0 == n,
{
    g.lemma_consistent();
}

/// A node that is not in the graph is the endpoint of no connection; so once
/// `remove_node` has taken a node out, its input and output queries are
/// empty.
pub proof fn law_absent_node_is_isolated(g: &NodeGraph, n: NodeId)
    requires
        g.wf(),
        !g.nodes().contains(n.0),
    ensures
        forall|c: u128|
            #[trigger] g.conns().contains_key(c) ==> g.conns()[c].from_node != n && g.conns()[c].to_node != n,
{
    g.lemma_consistent();
}

/// On a chain `a -> b -> c`, marking `a` dirty makes `b` and `c` dirty, and
/// clearing `b` afterwards leaves `c` dirty. Left out: `b` already dirty
/// while `c` is clean, where the mark stops at `b`.
pub proof fn law_chain_marking(
    conns: Map<u128, crate::graph::NodeConnection>,
    dirty: Set<u128>,
    a: u128,
    b: u128,
    c: u128,
)
    requires
        acyclic(conns),
        linked(conns, a, b),
        linked(conns, b, c),
        !(dirty.contains(b) && !dirty.contains(c)),
    ensures
        marked(conns, dirty, a).contains(b),
        marked(conns, dirty, a).contains(c),
        marked(conns, dirty, a).remove(b).contains(c),
{
    let p = seq![a, b];
    assert(is_path(conns, p) && p.len() >= 2 && p[0] == a && p.last() == b);
    assert(spread(conns, dirty, a, b));
    if !dirty.contains(c) {
        let q = seq![a, b, c];
        assert(is_path(conns, q) && q.len() >= 2 && q[0] == a && q.last() == c);
        assert(forall|k: int| 1 <= k < q.len() - 1 ==> !dirty.contains(#[trigger] q[k]));
        assert(spread(conns, dirty, a, c));
    }
    let e = choose|e: u128|
        #![trigger conns[e]]
        conns.contains_key(e) && conns[e].from_node.0 == b && conns[e].to_node.0 == c;
    if b == c {
        lemma_reaches_self(conns, c);
        assert(conns.contains_key(e));
    }
}

/// Clearing a node's dirty flag twice has the effect of clearing it once,
/// and leaves the node clean.
pub proof fn law_clear_twice(dirty: Set<u128>, n: NodeId)
    ensures
        dirty.remove(n.0).remove(n.0) == dirty.remove(n.0),
        !dirty.remove(n.0).contains(n.0),
{
    assert(dirty.remove(n.0).remove(n.0) =~= dirty.remove(n.0));
}

/// How an operation that keeps a graph's connections acts on its dirty set:
/// a query (or `add_node` of a present id) leaves it alone, `clear_dirty(m)`
/// removes `m`, and `add_node(m)` of a new node adds `m`.
pub enum DirtyStep {
    Query,
    Clear(u128),
    AddNode(u128),
}

/// The dirty set after one step.
pub open spec fn after_step(dirty: Set<u128>, step: DirtyStep) -> Set<u128> {
    match step {
        DirtyStep::Query => dirty,
        DirtyStep::Clear(m) => dirty.remove(m),
        DirtyStep::AddNode(m) => dirty.insert(m),
    }
}

/// The dirty set after a sequence of steps, applied in order.
pub open spec fn after_steps(dirty: Set<u128>, steps: Seq<DirtyStep>) -> Set<u128>
    decreases steps.len(),
{
    if steps.len() == 0 {
        dirty
    } else {
        after_step(after_steps(dirty, steps.drop_last()), steps.last())
    }
}

/// Once `clear_dirty(n)` has run, `n` stays clean through any sequence of
/// queries, `clear_dirty` calls and `add_node` calls for other nodes; only
/// marking it, a connection change upstream of it, or adding it anew can
/// make it dirty again.
pub proof fn law_cleared_stays_clean(dirty: Set<u128>, n: NodeId, steps: Seq<DirtyStep>)
    requires
        forall|i: int| 0 <= i < steps.len() ==> #[trigger] steps[i] != DirtyStep::AddNode(n.0),
    ensures
        !after_steps(dirty.remove(n.0), steps).contains(n.0),
    decreases steps.len(),
{
    if steps.len() > 0 {
        let init = steps.drop_last();
        assert forall|i: int| 0 <= i < init.len() implies #[trigger] init[i] != DirtyStep::AddNode(n.0) by {
            assert(init[i] == steps[i]);
        }
        law_cleared_stays_clean(dirty, n, init);
        assert(steps[steps.len() - 1] != DirtyStep::AddNode(n.0));
    }
}

} // verus!
