//! The graph store: nodes, connections, the evaluation order and the dirty set.

use crate::ids::{ConnectionId, DataType, NodeId};
use crate::paths::{
    acyclic, lemma_acyclic_insert, lemma_acyclic_submap, lemma_reaches_self, lemma_reaches_step,
    lemma_spread_step,
    linked, marked, reaches, spread, is_path,
};
use crate::store::{
    adjacent, graph_edges, graph_nodes, lemma_adjacent_contains, lemma_pending_finish,
    lemma_pending_initial, lemma_pending_zero, moved, pending, topology_add_edge, topology_add_node,
    topology_edge_count, topology_edge_weight, topology_neighbors, topology_new,
    topology_node_count, topology_node_weight, topology_remove_edge, topology_remove_node,
    Topology,
};
use std::collections::{HashMap, HashSet, VecDeque};
use vstd::prelude::*;

verus! {

broadcast use vstd::std_specs::hash::group_hash_axioms;

/// A directed, typed connection from an output port of one node to an input
/// port of another.
#[derive(Clone, Copy, PartialEq, Eq, Debug, Structural)]
pub struct NodeConnection {
    pub id: ConnectionId,
    pub from_node: NodeId,
    pub from_port: usize,
    pub to_node: NodeId,
    pub to_port: usize,
    pub data_type: DataType,
}

/// Errors reported by the graph operations.
#[derive(Clone, Copy, PartialEq, Eq, Debug, Structural)]
pub enum GraphError {
    NodeNotFound(NodeId),
    NodeAlreadyExists(NodeId),
    ConnectionNotFound(ConnectionId),
    CycleDetected,
    PortTypeMismatch,
    InvalidPortIndex,
}

/// Whether a query for the inputs and/or outputs of `node_id` keeps `c`.
spec fn selects(c: NodeConnection, node_id: NodeId, inputs: bool, outputs: bool) -> bool {
    (inputs && c.to_node == node_id) || (outputs && c.from_node == node_id)
}

/// Some edge of `es` runs from index `a` to index `b`.
spec fn has_edge(es: Seq<(usize, usize, u128)>, a: usize, b: usize) -> bool {
    exists|k: int| 0 <= k < es.len() && (#[trigger] es[k]).0 == a && es[k].1 == b
}

/// Some edge of `es` enters index `v` from an index outside `d`.
spec fn has_pending_pred(es: Seq<(usize, usize, u128)>, d: Set<usize>, v: usize) -> bool {
    exists|k: int| 0 <= k < es.len() && (#[trigger] es[k]).1 == v && !d.contains(es[k].0)
}

/// A sequence of distinct indices below `n` has at most `n` elements.
proof fn lemma_distinct_below(s: Seq<usize>, n: usize)
    requires
        s.no_duplicates(),
        forall|i: int| 0 <= i < s.len() ==> #[trigger] s[i] < n,
    ensures
        s.len() <= n,
{
    s.unique_seq_to_set();
    vstd::set_lib::range_set_properties::<usize>(0, n);
    assert(s.to_set().subset_of(Set::<usize>::range(0, n)));
    vstd::set_lib::lemma_len_subset(s.to_set(), Set::<usize>::range(0, n));
}

/// `order` lists every node of `nodes` exactly once, and puts the source of
/// every connection before its target.
pub open spec fn topological(order: Seq<NodeId>, nodes: Set<u128>, conns: Map<u128, NodeConnection>) -> bool {
    &&& order.no_duplicates()
    &&& forall|i: int| 0 <= i < order.len() ==> nodes.contains(#[trigger] order[i].0)
    &&& forall|n: u128| #[trigger] nodes.contains(n) ==> exists|i: int| 0 <= i < order.len() && order[i].0 == n
    &&& forall|c: u128, i: int, j: int|
        #![trigger conns[c], order[i], order[j]]
        conns.contains_key(c) && 0 <= i < order.len() && 0 <= j < order.len() && order[i].0
            == conns[c].from_node.0 && order[j].0 == conns[c].to_node.0 ==> i < j
}

/// The dataflow graph: live nodes, the connections between them, an
/// evaluation order consistent with the connections, and the set of nodes
/// whose output is stale.
pub struct NodeGraph {
    graph: Topology,
    node_to_index: HashMap<u128, usize>,
    connections: HashMap<u128, NodeConnection>,
    evaluation_order: Vec<NodeId>,
    dirty_nodes: HashSet<u128>,
}

impl NodeGraph {
    /// Identifiers of the live nodes.
    pub closed spec fn nodes(&self) -> Set<u128> {
        self.node_to_index@.dom()
    }

    /// The connection registry, keyed by connection identifier.
    pub closed spec fn conns(&self) -> Map<u128, NodeConnection> {
        self.connections@
    }

    /// The evaluation order.
    pub closed spec fn order(&self) -> Seq<NodeId> {
        self.evaluation_order@
    }

    /// Identifiers of the nodes marked dirty.
    pub closed spec fn dirty(&self) -> Set<u128> {
        self.dirty_nodes@
    }

    /// What callers may rely on of a well-formed graph.
    pub open spec fn consistent(&self) -> bool {
        &&& acyclic(self.conns())
        &&& topological(self.order(), self.nodes(), self.conns())
        &&& forall|c: u128|
            #[trigger] self.conns().contains_key(c) ==> {
                &&& self.conns()[c].id.0 == c
                &&& self.nodes().contains(self.conns()[c].from_node.0)
                &&& self.nodes().contains(self.conns()[c].to_node.0)
            }
    }

    /// The representation invariant, apart from the evaluation order.
    closed spec fn wf_core(&self) -> bool {
        let ns = graph_nodes(self.graph);
        let es = graph_edges(self.graph);
        let idx = self.node_to_index@;
        let cs = self.connections@;
        &&& ns.no_duplicates()
        &&& forall|i: int| 0 <= i < ns.len() ==> idx.contains_key(#[trigger] ns[i]) && idx[ns[i]] == i
        &&& forall|id: u128| #[trigger]
            idx.contains_key(id) ==> idx[id] < ns.len() && ns[idx[id] as int] == id
        &&& forall|k: int|
            0 <= k < es.len() ==> {
                &&& (#[trigger] es[k]).0 < ns.len()
                &&& es[k].1 < ns.len()
                &&& cs.contains_key(es[k].2)
                &&& cs[es[k].2].id.0 == es[k].2
                &&& cs[es[k].2].from_node.0 == ns[es[k].0 as int]
                &&& cs[es[k].2].to_node.0 == ns[es[k].1 as int]
            }
        &&& forall|c: u128| #[trigger]
            cs.contains_key(c) ==> exists|k: int| 0 <= k < es.len() && (#[trigger] es[k]).2 == c
        &&& forall|k1: int, k2: int|
            0 <= k1 < es.len() && 0 <= k2 < es.len() && k1 != k2 ==> (#[trigger] es[k1]).2
                != (#[trigger] es[k2]).2
        &&& acyclic(cs)
    }

    /// The representation invariant.
    pub closed spec fn wf(&self) -> bool {
        &&& self.wf_core()
        &&& topological(self.order(), self.nodes(), self.conns())
    }

    /// A well-formed graph is consistent.
    pub proof fn lemma_consistent(&self)
        requires
            self.wf(),
        ensures
            self.consistent(),
    {
        let ns = graph_nodes(self.graph);
        let es = graph_edges(self.graph);
        assert forall|c: u128| #[trigger] self.conns().contains_key(c) implies {
            &&& self.conns()[c].id.0 == c
            &&& self.nodes().contains(self.conns()[c].from_node.0)
            &&& self.nodes().contains(self.conns()[c].to_node.0)
        } by {
            let k = choose|k: int| 0 <= k < es.len() && (#[trigger] es[k]).2 == c;
            assert(self.node_to_index@.contains_key(ns[es[k].0 as int]));
            assert(self.node_to_index@.contains_key(ns[es[k].1 as int]));
        }
    }

    /// An empty graph.
    pub fn new() -> (r: NodeGraph)
        ensures
            r.wf(),
            r.nodes() == Set::<u128>::empty(),
            r.conns() == Map::<u128, NodeConnection>::empty(),
            r.order() == Seq::<NodeId>::empty(),
            r.dirty() == Set::<u128>::empty(),
    {
        let r = NodeGraph {
            graph: topology_new(),
            node_to_index: HashMap::new(),
            connections: HashMap::new(),
            evaluation_order: Vec::new(),
            dirty_nodes: HashSet::new(),
        };
        assert(r.nodes() =~= Set::<u128>::empty());
        r
    }

    proof fn lemma_edge_linked(&self, k: int)
        requires
            self.wf_core(),
            0 <= k < graph_edges(self.graph).len(),
        ensures
            linked(
                self.connections@,
                graph_nodes(self.graph)[graph_edges(self.graph)[k].0 as int],
                graph_nodes(self.graph)[graph_edges(self.graph)[k].1 as int],
            ),
    {
        let es = graph_edges(self.graph);
        let w = es[k].2;
        assert(self.connections@.contains_key(w));
    }

    proof fn lemma_linked_edge(&self, a: u128, b: u128)
        requires
            self.wf_core(),
            linked(self.connections@, a, b),
        ensures
            exists|k: int|
                0 <= k < graph_edges(self.graph).len() && graph_nodes(self.graph)[(
                #[trigger] graph_edges(self.graph)[k]).0 as int] == a && graph_nodes(
                    self.graph,
                )[graph_edges(self.graph)[k].1 as int] == b,
    {
        let cs = self.connections@;
        let es = graph_edges(self.graph);
        let c = choose|c: u128| cs.contains_key(c) && cs[c].from_node.0 == a && cs[c].to_node.0 == b;
        let k = choose|k: int| 0 <= k < es.len() && (#[trigger] es[k]).2 == c;
        assert(es[k].2 == c);
    }

    /// A walk that starts in a set of node indices closed under outgoing
    /// edges never leaves it.
    proof fn lemma_closed_walk(&self, vis: Set<usize>, s: usize, p: Seq<u128>, t: int)
        requires
            self.wf_core(),
            vis.contains(s),
            forall|x: usize| #[trigger] vis.contains(x) ==> x < graph_nodes(self.graph).len(),
            forall|x: usize, y: usize|
                vis.contains(x) && #[trigger] adjacent(graph_edges(self.graph), x, true).contains(y)
                    ==> vis.contains(y),
            is_path(self.connections@, p),
            p[0] == graph_nodes(self.graph)[s as int],
            0 <= t < p.len(),
        ensures
            exists|x: usize| #[trigger] vis.contains(x) && graph_nodes(self.graph)[x as int] == p[t],
        decreases t,
    {
        let ns = graph_nodes(self.graph);
        let es = graph_edges(self.graph);
        if t == 0 {
            assert(vis.contains(s));
        } else {
            self.lemma_closed_walk(vis, s, p, t - 1);
            let x = choose|x: usize| #[trigger] vis.contains(x) && ns[x as int] == p[t - 1];
            assert(linked(self.connections@, p[t - 1], p[t]));
            self.lemma_linked_edge(p[t - 1], p[t]);
            let k = choose|k: int|
                0 <= k < es.len() && ns[(#[trigger] es[k]).0 as int] == p[t - 1] && ns[es[k].1 as int]
                    == p[t];
            assert(es[k].0 == x);
            lemma_adjacent_contains(es, x, es[k].1);
            assert(vis.contains(es[k].1));
        }
    }

    /// Depth-first search from `to_index` along outgoing edges: whether the
    /// node at `from_index` can be reached, so that an edge from it to the
    /// node at `to_index` would close a cycle.
    fn would_create_cycle(&self, from_index: usize, to_index: usize) -> (r: bool)
        requires
            self.wf_core(),
            from_index < graph_nodes(self.graph).len(),
            to_index < graph_nodes(self.graph).len(),
        ensures
            r == reaches(
                self.connections@,
                graph_nodes(self.graph)[to_index as int],
                graph_nodes(self.graph)[from_index as int],
            ),
    {
        let ghost ns = graph_nodes(self.graph);
        let ghost es = graph_edges(self.graph);
        let ghost cs = self.connections@;
        let ghost top = ns[to_index as int];
        let n = topology_node_count(&self.graph);
        let mut visited: HashSet<usize> = HashSet::new();
        let mut stack: Vec<usize> = Vec::new();
        stack.push(to_index);
        proof {
            lemma_reaches_self(cs, top);
            assert(stack@[0] == to_index);
        }
        while stack.len() > 0
            invariant
                self.wf_core(),
                ns == graph_nodes(self.graph),
                es == graph_edges(self.graph),
                cs == self.connections@,
                top == ns[to_index as int],
                n == ns.len(),
                from_index < n,
                to_index < n,
                forall|i: int|
                    0 <= i < stack.len() ==> #[trigger] stack[i] < n && reaches(
                        cs,
                        top,
                        ns[stack[i] as int],
                    ),
                forall|x: usize|
                    #[trigger] visited@.contains(x) ==> x < n && x != from_index && reaches(
                        cs,
                        top,
                        ns[x as int],
                    ),
                visited@.contains(to_index) || stack@.contains(to_index),
                forall|x: usize, y: usize|
                    visited@.contains(x) && #[trigger] adjacent(es, x, true).contains(y)
                        ==> visited@.contains(y) || stack@.contains(y),
            decreases n - visited@.len(), stack.len(),
        {
            proof {
                vstd::set_lib::range_set_properties::<usize>(0, n);
                assert(visited@.subset_of(Set::<usize>::range(0, n)));
                vstd::set_lib::lemma_len_subset(visited@, Set::<usize>::range(0, n));
                assert(visited@.len() <= n);
            }
            let ghost old_stack = stack@;
            let current = stack.pop().unwrap();
            proof {
                assert(old_stack == stack@.push(current));
                assert(old_stack[old_stack.len() - 1] == current);
                assert forall|y: usize| old_stack.contains(y) implies stack@.contains(y) || y
                    == current by {
                    let i = choose|i: int| 0 <= i < old_stack.len() && old_stack[i] == y;
                    if i < stack.len() {
                        assert(stack@[i] == y);
                    }
                }
            }
            if current == from_index {
                return true;
            }
            if visited.contains(&current) {
                continue;
            }
            let ghost vis0 = visited@;
            visited.insert(current);
            let ghost vis1 = visited@;
            proof {
                vstd::set::axiom_set_insert_len(vis0, current);
                assert(vis1.len() == vis0.len() + 1);
                assert(vis1.len() <= n) by {
                    assert(vis1.subset_of(Set::<usize>::range(0, n)));
                    vstd::set_lib::lemma_len_subset(vis1, Set::<usize>::range(0, n));
                }
            }
            let ghost stack1 = stack@;
            let nbrs = topology_neighbors(&self.graph, current, true);
            let mut j: usize = 0;
            while j < nbrs.len()
                invariant
                    self.wf_core(),
                    ns == graph_nodes(self.graph),
                    es == graph_edges(self.graph),
                    cs == self.connections@,
                    top == ns[to_index as int],
                    n == ns.len(),
                    from_index < n,
                    to_index < n,
                    current < n,
                    visited@ == vis1,
                    reaches(cs, top, ns[current as int]),
                    nbrs@.to_multiset() == adjacent(es, current, true).to_multiset(),
                    j <= nbrs.len(),
                    forall|y: usize| stack1.contains(y) ==> stack@.contains(y),
                    forall|i: int|
                        0 <= i < stack.len() ==> #[trigger] stack[i] < n && reaches(
                            cs,
                            top,
                            ns[stack[i] as int],
                        ),
                    forall|jj: int|
                        0 <= jj < j ==> visited@.contains(#[trigger] nbrs@[jj]) || stack@.contains(
                            nbrs@[jj],
                        ),
                decreases nbrs.len() - j,
            {
                let nb = nbrs[j];
                proof {
                    broadcast use vstd::seq_lib::group_to_multiset_ensures;

                    assert(nbrs@.contains(nb));
                    assert(nbrs@.to_multiset().count(nb) > 0);
                    lemma_adjacent_contains(es, current, nb);
                    let k = choose|k: int|
                        0 <= k < es.len() && (#[trigger] es[k]).0 == current && es[k].1 == nb;
                    self.lemma_edge_linked(k);
                    lemma_reaches_step(cs, top, ns[current as int], ns[nb as int]);
                }
                if !visited.contains(&nb) {
                    let ghost before = stack@;
                    stack.push(nb);
                    proof {
                        assert forall|y: usize| before.contains(y) implies stack@.contains(y) by {
                            let i = choose|i: int| 0 <= i < before.len() && before[i] == y;
                            assert(stack@[i] == y);
                        }
                        assert(stack@[stack.len() - 1] == nb);
                    }
                }
                j += 1;
            }
            proof {
                broadcast use vstd::seq_lib::group_to_multiset_ensures;

                assert forall|x: usize, y: usize|
                    visited@.contains(x) && #[trigger] adjacent(es, x, true).contains(y)
                        implies visited@.contains(y) || stack@.contains(y) by {
                    if x == current {
                        assert(adjacent(es, current, true).to_multiset().count(y) > 0);
                        assert(nbrs@.contains(y));
                        let jj = choose|jj: int| 0 <= jj < nbrs.len() && nbrs@[jj] == y;
                        assert(visited@.contains(nbrs@[jj]) || stack@.contains(nbrs@[jj]));
                    }
                }
            }
        }
        proof {
            if reaches(cs, top, ns[from_index as int]) {
                let p = choose|p: Seq<u128>|
                    is_path(cs, p) && p[0] == top && p.last() == ns[from_index as int];
                assert forall|x: usize, y: usize|
                    visited@.contains(x) && #[trigger] adjacent(es, x, true).contains(y)
                        implies visited@.contains(y) by {
                    assert(!stack@.contains(y));
                }
                self.lemma_closed_walk(visited@, to_index, p, p.len() - 1);
                let x = choose|x: usize| #[trigger] visited@.contains(x) && ns[x as int] == p[p.len() - 1];
                assert(ns[x as int] == ns[from_index as int]);
            }
        }
        false
    }

    /// Walking `len` edges backwards from `w` without leaving the indices
    /// outside `d`, where every such index has a predecessor outside `d`.
    proof fn lemma_back_walk(&self, d: Set<usize>, w: usize, len: nat) -> (p: Seq<usize>)
        requires
            self.wf_core(),
            w < graph_nodes(self.graph).len(),
            !d.contains(w),
            forall|v: usize|
                v < graph_nodes(self.graph).len() && !d.contains(v) ==> #[trigger] has_pending_pred(
                    graph_edges(self.graph),
                    d,
                    v,
                ),
        ensures
            p.len() == len + 1,
            p[0] == w,
            forall|i: int|
                0 <= i < p.len() ==> #[trigger] p[i] < graph_nodes(self.graph).len() && !d.contains(p[i]),
            forall|i: int| 0 <= i < len ==> has_edge(graph_edges(self.graph), p[i + 1], #[trigger] p[i]),
        decreases len,
    {
        let es = graph_edges(self.graph);
        if len == 0 {
            seq![w]
        } else {
            let q = self.lemma_back_walk(d, w, (len - 1) as nat);
            let last = q[len - 1];
            assert(last < graph_nodes(self.graph).len() && !d.contains(last));
            assert(has_pending_pred(es, d, last));
            let k = choose|k: int| 0 <= k < es.len() && (#[trigger] es[k]).1 == last && !d.contains(es[k].0);
            let p = q.push(es[k].0);
            assert forall|i: int| 0 <= i < p.len() implies #[trigger] p[i] < graph_nodes(self.graph).len()
                && !d.contains(p[i]) by {
                if i < q.len() {
                    assert(p[i] == q[i]);
                }
            }
            assert forall|i: int| 0 <= i < len implies has_edge(es, p[i + 1], #[trigger] p[i]) by {
                if i < len - 1 {
                    assert(p[i] == q[i] && p[i + 1] == q[i + 1]);
                } else {
                    assert(p[i] == last && p[i + 1] == es[k].0);
                }
            }
            p
        }
    }

    /// A backward walk never comes back to an index it has visited.
    proof fn lemma_walk_repeats(&self, p: Seq<usize>, lo: int, hi: int)
        requires
            self.wf_core(),
            0 <= lo < hi < p.len(),
            forall|i: int| 0 <= i < p.len() ==> #[trigger] p[i] < graph_nodes(self.graph).len(),
            forall|i: int| 0 <= i < hi ==> has_edge(graph_edges(self.graph), p[i + 1], #[trigger] p[i]),
        ensures
            p[lo] != p[hi],
    {
        if p[lo] == p[hi] {
            self.lemma_walk_closes_cycle(p, lo, hi);
        }
    }

    proof fn lemma_walk_closes_cycle(&self, p: Seq<usize>, lo: int, hi: int)
        requires
            self.wf_core(),
            0 <= lo < hi < p.len(),
            p[lo] == p[hi],
            forall|i: int| 0 <= i < p.len() ==> #[trigger] p[i] < graph_nodes(self.graph).len(),
            forall|i: int| 0 <= i < hi ==> has_edge(graph_edges(self.graph), p[i + 1], #[trigger] p[i]),
        ensures
            !acyclic(self.connections@),
    {
        let ns = graph_nodes(self.graph);
        let es = graph_edges(self.graph);
        let cs = self.connections@;
        assert(has_edge(es, p[hi], p[hi - 1]));
        let k = choose|k: int| 0 <= k < es.len() && (#[trigger] es[k]).0 == p[hi] && es[k].1 == p[hi - 1];
        let c = es[k].2;
        let q = Seq::new((hi - lo) as nat, |t: int| ns[p[hi - 1 - t] as int]);
        assert forall|t: int| 0 <= t < q.len() - 1 implies linked(cs, #[trigger] q[t], q[t + 1]) by {
            let m = hi - 2 - t;
            assert(has_edge(es, p[m + 1], p[m]));
            let k2 = choose|k2: int| 0 <= k2 < es.len() && (#[trigger] es[k2]).0 == p[m + 1] && es[k2].1 == p[m];
            self.lemma_edge_linked(k2);
        }
        assert(is_path(cs, q));
        assert(q[0] == cs[c].to_node.0);
        assert(q.last() == ns[p[lo] as int]);
        assert(reaches(cs, cs[c].to_node.0, cs[c].from_node.0));
        assert(cs.contains_key(c));
    }

    /// In an acyclic graph, some index outside any set `d` that misses an
    /// index has no predecessor outside `d`.
    proof fn lemma_source_exists(&self, d: Set<usize>, w: usize, n: usize)
        requires
            self.wf_core(),
            n == graph_nodes(self.graph).len(),
            w < graph_nodes(self.graph).len(),
            !d.contains(w),
        ensures
            exists|v: usize|
                v < graph_nodes(self.graph).len() && !d.contains(v) && !(#[trigger] has_pending_pred(
                    graph_edges(self.graph),
                    d,
                    v,
                )),
    {
        let es = graph_edges(self.graph);
        if !exists|v: usize| v < n && !d.contains(v) && !(#[trigger] has_pending_pred(es, d, v)) {
            assert forall|v: usize| v < n && !d.contains(v) implies #[trigger] has_pending_pred(es, d, v) by {
            }
            let p = self.lemma_back_walk(d, w, n as nat);
            if p.no_duplicates() {
                lemma_distinct_below(p, n);
            }
            let (i, j) = choose|i: int, j: int| 0 <= i < p.len() && 0 <= j < p.len() && i != j && p[i] == p[j];
            if i < j {
                self.lemma_walk_repeats(p, i, j);
            } else {
                self.lemma_walk_repeats(p, j, i);
            }
        }
    }

    /// Kahn's algorithm: a node is emitted once every node with an edge into
    /// it has been emitted.
    fn compute_order(&self) -> (r: Vec<NodeId>)
        requires
            self.wf_core(),
        ensures
            topological(r@, self.nodes(), self.conns()),
    {
        let ghost ns = graph_nodes(self.graph);
        let ghost es = graph_edges(self.graph);
        let n = topology_node_count(&self.graph);
        let mut in_degree: Vec<usize> = Vec::new();
        let mut queue: VecDeque<usize> = VecDeque::new();
        let mut i: usize = 0;
        while i < n
            invariant
                n == ns.len(),
                es == graph_edges(self.graph),
                i <= n,
                in_degree.len() == i,
                forall|v: int| 0 <= v < i ==> #[trigger] in_degree@[v] == pending(es, v as usize, Set::empty()),
                queue@.no_duplicates(),
                forall|q: int| 0 <= q < queue@.len() ==> #[trigger] queue@[q] < i,
                forall|v: usize| v < i ==> (queue@.contains(v) <==> #[trigger] in_degree@[v as int] == 0),
            decreases n - i,
        {
            let incoming = topology_neighbors(&self.graph, i, false);
            let degree = incoming.len();
            proof {
                broadcast use vstd::seq_lib::group_to_multiset_ensures;

                assert(incoming@.len() == incoming@.to_multiset().len());
                assert(adjacent(es, i, false).len() == adjacent(es, i, false).to_multiset().len());
                lemma_pending_initial(es, i);
            }
            in_degree.push(degree);
            if degree == 0 {
                let ghost before = queue@;
                queue.push_back(i);
                proof {
                    assert forall|v: usize| #[trigger] queue@.contains(v) implies before.contains(v) || v == i by {
                        let q = choose|q: int| 0 <= q < queue@.len() && queue@[q] == v;
                        if q < before.len() {
                            assert(before[q] == v);
                        }
                    }
                    assert forall|v: usize| before.contains(v) implies #[trigger] queue@.contains(v) by {
                        let q = choose|q: int| 0 <= q < before.len() && before[q] == v;
                        assert(queue@[q] == v);
                    }
                    assert(queue@[queue@.len() - 1] == i);
                }
            }
            i += 1;
        }
        let mut order: Vec<NodeId> = Vec::new();
        let ghost mut done: Seq<usize> = Seq::empty();
        proof {
            assert(done.to_set() =~= Set::<usize>::empty());
        }
        while queue.len() > 0
            invariant
                self.wf_core(),
                ns == graph_nodes(self.graph),
                es == graph_edges(self.graph),
                n == ns.len(),
                in_degree.len() == n,
                done.no_duplicates(),
                queue@.no_duplicates(),
                forall|q: int| 0 <= q < done.len() ==> #[trigger] done[q] < n,
                forall|q: int| 0 <= q < queue@.len() ==> #[trigger] queue@[q] < n,
                forall|x: usize| !(#[trigger] done.contains(x) && queue@.contains(x)),
                forall|v: int| 0 <= v < n ==> #[trigger] in_degree@[v] == pending(es, v as usize, done.to_set()),
                forall|v: usize|
                    v < n ==> ((done.contains(v) || queue@.contains(v)) <==> #[trigger] in_degree@[v as int]
                        == 0),
                forall|k: int, a: int, b: int|
                    #![trigger es[k], done[a], done[b]]
                    0 <= k < es.len() && 0 <= a < done.len() && 0 <= b < done.len() && done[a] == es[k].0
                        && done[b] == es[k].1 ==> a < b,
                order@.len() == done.len(),
                forall|q: int| 0 <= q < done.len() ==> #[trigger] order@[q] == NodeId(ns[done[q] as int]),
            decreases n - done.len(),
        {
            let ghost q0 = queue@;
            let current = queue.pop_front().unwrap();
            let ghost d_old = done.to_set();
            proof {
                assert(q0[0] == current);
                assert forall|v: usize| #[trigger] q0.contains(v) implies queue@.contains(v) || v == current by {
                    let q = choose|q: int| 0 <= q < q0.len() && q0[q] == v;
                    if q > 0 {
                        assert(queue@[q - 1] == v);
                    }
                }
                assert forall|v: usize| #[trigger] queue@.contains(v) implies q0.contains(v) && v != current by {
                    let q = choose|q: int| 0 <= q < queue@.len() && queue@[q] == v;
                    assert(q0[q + 1] == v);
                }
                assert(q0.contains(current));
                assert(!done.contains(current));
                assert(in_degree@[current as int] == 0);
                assert(pending(es, current, d_old) == 0);
                lemma_pending_zero(es, current, d_old);
                // the new position respects every edge into or out of it
                let dn = done.push(current);
                assert forall|k: int, a: int, b: int|
                    #![trigger es[k], dn[a], dn[b]]
                    0 <= k < es.len() && 0 <= a < dn.len() && 0 <= b < dn.len() && dn[a] == es[k].0
                        && dn[b] == es[k].1 implies a < b by {
                    if b == done.len() {
                        assert(d_old.contains(es[k].0));
                        let a2 = choose|a2: int| 0 <= a2 < done.len() && done[a2] == es[k].0;
                        assert(dn[a2] == es[k].0);
                        if a != a2 {
                            assert(dn[a] == dn[a2]);
                        }
                    } else if a == done.len() {
                        assert(dn[b] == done[b]);
                        let tb = done[b];
                        assert(done.contains(tb));
                        assert(in_degree@[tb as int] == 0);
                        lemma_pending_zero(es, tb, d_old);
                        assert(d_old.contains(current));
                    } else {
                        assert(dn[a] == done[a] && dn[b] == done[b]);
                    }
                }
                assert(dn.no_duplicates());
                assert forall|q: int| 0 <= q < dn.len() implies dn[q] < n by {
                    if q < done.len() {
                        assert(dn[q] == done[q]);
                    }
                }
                lemma_distinct_below(dn, n);
                assert(dn.to_set() == d_old.insert(current)) by {
                    done.lemma_push_to_set_commute(current);
                }
            }
            let id = topology_node_weight(&self.graph, current).unwrap();
            order.push(NodeId(id));
            proof {
                let old_done = done;
                done = done.push(current);
                assert(done[old_done.len() as int] == current);
                assert forall|x: usize| #[trigger] done.contains(x) <==> old_done.contains(x) || x == current by {
                    if old_done.contains(x) {
                        let q = choose|q: int| 0 <= q < old_done.len() && old_done[q] == x;
                        assert(done[q] == x);
                    }
                    if done.contains(x) {
                        let q = choose|q: int| 0 <= q < done.len() && done[q] == x;
                        if q < old_done.len() {
                            assert(old_done[q] == x);
                        }
                    }
                }
            }
            let nbrs = topology_neighbors(&self.graph, current, true);
            let mut j: usize = 0;
            proof {
                broadcast use vstd::seq_lib::group_to_multiset_ensures;

                assert forall|q: int| 0 <= q < nbrs@.len() implies #[trigger] nbrs@[q] < n by {
                    let x = nbrs@[q];
                    assert(nbrs@.contains(x));
                    assert(nbrs@.to_multiset().count(x) > 0);
                    lemma_adjacent_contains(es, current, x);
                    let k = choose|k: int| 0 <= k < es.len() && (#[trigger] es[k]).0 == current && es[k].1 == x;
                }
                assert(nbrs@.subrange(0, nbrs@.len() as int) == nbrs@);
                assert forall|v: int| 0 <= v < n implies #[trigger] in_degree@[v] == pending(
                    es,
                    v as usize,
                    done.to_set(),
                ) + nbrs@.subrange(0, nbrs@.len() as int).to_multiset().count(v as usize) by {
                    lemma_pending_finish(es, v as usize, d_old, current);
                }
            }
            while j < nbrs.len()
                invariant
                    self.wf_core(),
                    ns == graph_nodes(self.graph),
                    es == graph_edges(self.graph),
                    n == ns.len(),
                    in_degree.len() == n,
                    j <= nbrs.len(),
                    done.no_duplicates(),
                    queue@.no_duplicates(),
                    forall|q: int| 0 <= q < done.len() ==> #[trigger] done[q] < n,
                    forall|q: int| 0 <= q < queue@.len() ==> #[trigger] queue@[q] < n,
                    forall|q: int| 0 <= q < nbrs@.len() ==> #[trigger] nbrs@[q] < n,
                    forall|x: usize| !(#[trigger] done.contains(x) && queue@.contains(x)),
                    forall|v: int|
                        0 <= v < n ==> #[trigger] in_degree@[v] == pending(es, v as usize, done.to_set())
                            + nbrs@.subrange(j as int, nbrs@.len() as int).to_multiset().count(v as usize),
                    forall|v: usize|
                        v < n ==> ((done.contains(v) || queue@.contains(v)) <==> #[trigger] in_degree@[v as int]
                            == 0),
                    forall|k: int, a: int, b: int|
                        #![trigger es[k], done[a], done[b]]
                        0 <= k < es.len() && 0 <= a < done.len() && 0 <= b < done.len() && done[a] == es[k].0
                            && done[b] == es[k].1 ==> a < b,
                    order@.len() == done.len(),
                    forall|q: int| 0 <= q < done.len() ==> #[trigger] order@[q] == NodeId(ns[done[q] as int]),
                decreases nbrs.len() - j,
            {
                let nb = nbrs[j];
                let ghost rest = nbrs@.subrange(j as int, nbrs@.len() as int);
                let ghost rest2 = nbrs@.subrange(j as int + 1, nbrs@.len() as int);
                proof {
                    broadcast use vstd::seq_lib::group_to_multiset_ensures;

                    assert(rest.remove(0) =~= rest2);
                    assert(rest[0] == nb);
                    assert(rest.contains(nb));
                    assert(in_degree@[nb as int] >= 1);
                }
                let d = in_degree[nb] - 1;
                in_degree.set(nb, d);
                if d == 0 {
                    let ghost before = queue@;
                    queue.push_back(nb);
                    proof {
                        assert forall|v: usize| #[trigger] queue@.contains(v) implies before.contains(v) || v == nb by {
                            let q = choose|q: int| 0 <= q < queue@.len() && queue@[q] == v;
                            if q < before.len() {
                                assert(before[q] == v);
                            }
                        }
                        assert forall|v: usize| before.contains(v) implies #[trigger] queue@.contains(v) by {
                            let q = choose|q: int| 0 <= q < before.len() && before[q] == v;
                            assert(queue@[q] == v);
                        }
                        assert(queue@[queue@.len() - 1] == nb);
                    }
                }
                proof {
                    broadcast use vstd::seq_lib::group_to_multiset_ensures;

                    assert forall|v: int| 0 <= v < n implies #[trigger] in_degree@[v] == pending(
                        es,
                        v as usize,
                        done.to_set(),
                    ) + rest2.to_multiset().count(v as usize) by {
                        assert(rest.remove(0) =~= rest2);
                    }
                }
                j += 1;
            }
        }
        proof {
            let d = done.to_set();
            assert forall|v: usize| v < n implies #[trigger] d.contains(v) by {
                if !d.contains(v) {
                    self.lemma_source_exists(d, v, n);
                    let w = choose|w: usize| w < n && !d.contains(w) && !(#[trigger] has_pending_pred(es, d, w));
                    assert forall|k: int| 0 <= k < es.len() && (#[trigger] es[k]).1 == w implies d.contains(
                        es[k].0,
                    ) by {
                        if !d.contains(es[k].0) {
                            assert(has_pending_pred(es, d, w));
                        }
                    }
                    lemma_pending_zero(es, w, d);
                    assert(in_degree@[w as int] == 0);
                    assert(!queue@.contains(w));
                }
            }
            let idx = self.node_to_index@;
            assert(order@.no_duplicates()) by {
                assert forall|a: int, b: int| 0 <= a < order@.len() && 0 <= b < order@.len() && a != b
                    implies order@[a] != order@[b] by {
                    assert(order@[a] == NodeId(ns[done[a] as int]));
                    assert(order@[b] == NodeId(ns[done[b] as int]));
                }
            }
            assert forall|i: int| 0 <= i < order@.len() implies self.nodes().contains(#[trigger] order@[i].0) by {
                assert(order@[i] == NodeId(ns[done[i] as int]));
                assert(idx.contains_key(ns[done[i] as int]));
            }
            assert forall|m: u128| #[trigger] self.nodes().contains(m) implies exists|i: int|
                0 <= i < order@.len() && order@[i].0 == m by {
                assert(idx.contains_key(m));
                let x = idx[m];
                assert(d.contains(x));
                let q = choose|q: int| 0 <= q < done.len() && done[q] == x;
                assert(order@[q] == NodeId(ns[done[q] as int]));
            }
            let cs = self.connections@;
            assert forall|c: u128, i: int, j: int|
                #![trigger cs[c], order@[i], order@[j]]
                cs.contains_key(c) && 0 <= i < order@.len() && 0 <= j < order@.len() && order@[i].0
                    == cs[c].from_node.0 && order@[j].0 == cs[c].to_node.0 implies i < j by {
                let k = choose|k: int| 0 <= k < es.len() && (#[trigger] es[k]).2 == c;
                assert(order@[i] == NodeId(ns[done[i] as int]));
                assert(order@[j] == NodeId(ns[done[j] as int]));
                assert(es[k].2 == c);
                assert(done[i] == es[k].0);
                assert(done[j] == es[k].1);
            }
        }
        order
    }

    /// Every node that the mark spreads to from the node at `start` is dirty,
    /// once the dirty set is closed under the edges out of `start` and out of
    /// the nodes that became dirty.
    proof fn lemma_spread_closed(
        &self,
        d0: Set<u128>,
        dirty: Set<u128>,
        start: usize,
        p: Seq<u128>,
        t: int,
    )
        requires
            self.wf_core(),
            start < graph_nodes(self.graph).len(),
            is_path(self.connections@, p),
            p.len() >= 2,
            p[0] == graph_nodes(self.graph)[start as int],
            forall|k: int| 1 <= k < p.len() - 1 ==> !d0.contains(#[trigger] p[k]),
            1 <= t < p.len(),
            forall|i: usize, y: usize|
                i < graph_nodes(self.graph).len() && (i == start || (!d0.contains(
                    graph_nodes(self.graph)[i as int],
                ) && dirty.contains(graph_nodes(self.graph)[i as int]))) && #[trigger] adjacent(
                    graph_edges(self.graph),
                    i,
                    true,
                ).contains(y) ==> dirty.contains(graph_nodes(self.graph)[y as int]),
        ensures
            dirty.contains(p[t]),
        decreases t,
    {
        let ns = graph_nodes(self.graph);
        let es = graph_edges(self.graph);
        if t > 1 {
            self.lemma_spread_closed(d0, dirty, start, p, t - 1);
        }
        assert(linked(self.connections@, p[t - 1], p[t]));
        self.lemma_linked_edge(p[t - 1], p[t]);
        let k = choose|k: int|
            0 <= k < es.len() && ns[(#[trigger] es[k]).0 as int] == p[t - 1] && ns[es[k].1 as int] == p[t];
        let i = es[k].0;
        if t == 1 {
            assert(ns[i as int] == ns[start as int]);
        } else {
            assert(!d0.contains(p[t - 1]));
        }
        lemma_adjacent_contains(es, i, es[k].1);
    }

    /// Marks node `node_id` dirty and walks downstream with a worklist,
    /// marking each node reached and not going past nodes that were already
    /// dirty.
    fn mark_dirty_core(&mut self, node_id: u128)
        requires
            old(self).wf_core(),
        ensures
            final(self).wf_core(),
            final(self).graph == old(self).graph,
            final(self).node_to_index == old(self).node_to_index,
            final(self).connections == old(self).connections,
            final(self).evaluation_order == old(self).evaluation_order,
            final(self).dirty() == marked(old(self).conns(), old(self).dirty(), node_id),
    {
        let ghost d0 = self.dirty_nodes@;
        let ghost cs = self.connections@;
        let ghost ns = graph_nodes(self.graph);
        let ghost es = graph_edges(self.graph);
        self.dirty_nodes.insert(node_id);
        let found = self.node_to_index.get(&node_id);
        match found {
            None => {
                proof {
                    assert forall|v: u128| !spread(cs, d0, node_id, v) by {
                        if spread(cs, d0, node_id, v) {
                            let p = choose|p: Seq<u128>|
                                {
                                    &&& is_path(cs, p)
                                    &&& p.len() >= 2
                                    &&& p[0] == node_id
                                    &&& p.last() == v
                                    &&& forall|k: int| 1 <= k < p.len() - 1 ==> !d0.contains(#[trigger] p[k])
                                };
                            assert(linked(cs, p[0], p[1]));
                            self.lemma_linked_edge(p[0], p[1]);
                            let k = choose|k: int|
                                0 <= k < es.len() && ns[(#[trigger] es[k]).0 as int] == p[0] && ns[es[k].1 as int] == p[1];
                            assert(self.node_to_index@.contains_key(ns[es[k].0 as int]));
                        }
                    }
                    assert(self.dirty_nodes@ =~= marked(cs, d0, node_id));
                }
            },
            Some(start_ref) => {
                let start = *start_ref;
                let mut stack: Vec<usize> = Vec::new();
                stack.push(start);
                proof {
                    assert(stack@[0] == start);
                }
                while stack.len() > 0
                    invariant
                        self.wf_core(),
                        self.graph == old(self).graph,
                        self.node_to_index == old(self).node_to_index,
                        self.connections == old(self).connections,
                        self.evaluation_order == old(self).evaluation_order,
                        ns == graph_nodes(self.graph),
                        es == graph_edges(self.graph),
                        cs == self.connections@,
                        d0 == old(self).dirty_nodes@,
                        start < ns.len(),
                        ns[start as int] == node_id,
                        self.dirty_nodes@.contains(node_id),
                        d0.subset_of(self.dirty_nodes@),
                        forall|x: u128|
                            #[trigger] self.dirty_nodes@.contains(x) ==> d0.contains(x) || x == node_id
                                || spread(cs, d0, node_id, x),
                        forall|q: int|
                            0 <= q < stack.len() ==> #[trigger] stack@[q] < ns.len() && (stack@[q] == start
                                || (!d0.contains(ns[stack@[q] as int]) && self.dirty_nodes@.contains(
                                ns[stack@[q] as int],
                            ))),
                        forall|i: usize, y: usize|
                            i < ns.len() && (i == start || (!d0.contains(ns[i as int])
                                && self.dirty_nodes@.contains(ns[i as int]))) && !stack@.contains(i)
                                && #[trigger] adjacent(es, i, true).contains(y) ==> self.dirty_nodes@.contains(
                                ns[y as int],
                            ),
                    decreases ns.to_set().difference(self.dirty_nodes@).len(), stack.len(),
                {
                    let ghost stack0 = stack@;
                    let cur = stack.pop().unwrap();
                    let ghost diff0 = ns.to_set().difference(self.dirty_nodes@);
                    let ghost stack1 = stack@;
                    proof {
                        vstd::seq_lib::seq_to_set_is_finite(ns);
                        vstd::set_lib::lemma_set_subset_finite(ns.to_set(), diff0);
                        assert(stack0 == stack1.push(cur));
                        assert(stack0[stack0.len() - 1] == cur);
                        assert forall|y: usize| stack0.contains(y) implies stack1.contains(y) || y == cur by {
                            let q = choose|q: int| 0 <= q < stack0.len() && stack0[q] == y;
                            if q < stack1.len() {
                                assert(stack1[q] == y);
                            }
                        }
                        assert(cur == start || spread(cs, d0, node_id, ns[cur as int]));
                    }
                    let nbrs = topology_neighbors(&self.graph, cur, true);
                    let mut j: usize = 0;
                    while j < nbrs.len()
                        invariant
                            self.wf_core(),
                            self.graph == old(self).graph,
                            self.node_to_index == old(self).node_to_index,
                            self.connections == old(self).connections,
                            self.evaluation_order == old(self).evaluation_order,
                            ns == graph_nodes(self.graph),
                            es == graph_edges(self.graph),
                            cs == self.connections@,
                            d0 == old(self).dirty_nodes@,
                            start < ns.len(),
                            ns[start as int] == node_id,
                            cur < ns.len(),
                            cur == start || (!d0.contains(ns[cur as int]) && self.dirty_nodes@.contains(
                                ns[cur as int],
                            ) && spread(cs, d0, node_id, ns[cur as int])),
                            nbrs@.to_multiset() == adjacent(es, cur, true).to_multiset(),
                            j <= nbrs.len(),
                            self.dirty_nodes@.contains(node_id),
                            d0.subset_of(self.dirty_nodes@),
                            forall|x: u128|
                                #[trigger] self.dirty_nodes@.contains(x) ==> d0.contains(x) || x == node_id
                                    || spread(cs, d0, node_id, x),
                            forall|q: int|
                                0 <= q < stack.len() ==> #[trigger] stack@[q] < ns.len() && (stack@[q] == start
                                    || (!d0.contains(ns[stack@[q] as int]) && self.dirty_nodes@.contains(
                                    ns[stack@[q] as int],
                                ))),
                            forall|y: usize| stack1.contains(y) ==> stack@.contains(y),
                            forall|i: usize, y: usize|
                                i < ns.len() && (i == start || (!d0.contains(ns[i as int])
                                    && self.dirty_nodes@.contains(ns[i as int]))) && !stack@.contains(i) && i
                                    != cur && #[trigger] adjacent(es, i, true).contains(y)
                                    ==> self.dirty_nodes@.contains(ns[y as int]),
                            forall|jj: int|
                                0 <= jj < j ==> #[trigger] nbrs@[jj] < ns.len()
                                    && self.dirty_nodes@.contains(ns[nbrs@[jj] as int]),
                            ns.to_set().difference(self.dirty_nodes@).len() <= diff0.len(),
                            stack.len() > stack1.len() ==> ns.to_set().difference(self.dirty_nodes@).len()
                                < diff0.len(),
                            stack.len() >= stack1.len(),
                            diff0.finite(),
                        decreases nbrs.len() - j,
                    {
                        let nb = nbrs[j];
                        proof {
                            broadcast use vstd::seq_lib::group_to_multiset_ensures;

                            assert(nbrs@.contains(nb));
                            assert(nbrs@.to_multiset().count(nb) > 0);
                            lemma_adjacent_contains(es, cur, nb);
                            let k = choose|k: int| 0 <= k < es.len() && (#[trigger] es[k]).0 == cur && es[k].1 == nb;
                            self.lemma_edge_linked(k);
                            lemma_spread_step(cs, d0, node_id, ns[cur as int], ns[nb as int]);
                        }
                        let id = topology_node_weight(&self.graph, nb).unwrap();
                        let ghost dirty_before = self.dirty_nodes@;
                        let ghost diff_before = ns.to_set().difference(dirty_before);
                        let fresh = self.dirty_nodes.insert(id);
                        if fresh {
                            let ghost st = stack@;
                            stack.push(nb);
                            proof {
                                assert forall|y: usize| st.contains(y) implies stack@.contains(y) by {
                                    let q = choose|q: int| 0 <= q < st.len() && st[q] == y;
                                    assert(stack@[q] == y);
                                }
                                assert(stack@[stack.len() - 1] == nb);
                                assert(ns[nb as int] == id);
                                assert(ns.to_set().contains(id));
                                assert(diff_before.contains(id));
                                assert(ns.to_set().difference(self.dirty_nodes@) =~= diff_before.remove(id));
                                vstd::seq_lib::seq_to_set_is_finite(ns);
                                vstd::set_lib::lemma_set_subset_finite(ns.to_set(), diff_before);
                                vstd::set::axiom_set_remove_len(diff_before, id);
                            }
                        } else {
                            proof {
                                assert(self.dirty_nodes@ =~= dirty_before);
                            }
                        }
                        proof {
                            assert forall|jj: int| 0 <= jj <= j implies #[trigger] nbrs@[jj] < ns.len()
                                && self.dirty_nodes@.contains(ns[nbrs@[jj] as int]) by {
                                if jj < j {
                                    assert(dirty_before.contains(ns[nbrs@[jj] as int]));
                                }
                            }
                        }
                        j += 1;
                    }
                    proof {
                        broadcast use vstd::seq_lib::group_to_multiset_ensures;

                        assert forall|i: usize, y: usize|
                            i < ns.len() && (i == start || (!d0.contains(ns[i as int])
                                && self.dirty_nodes@.contains(ns[i as int]))) && !stack@.contains(i)
                                && #[trigger] adjacent(es, i, true).contains(y)
                                implies self.dirty_nodes@.contains(ns[y as int]) by {
                            if i == cur {
                                assert(adjacent(es, cur, true).to_multiset().count(y) > 0);
                                assert(nbrs@.contains(y));
                                let jj = choose|jj: int| 0 <= jj < nbrs.len() && nbrs@[jj] == y;
                                assert(self.dirty_nodes@.contains(ns[nbrs@[jj] as int]));
                            }
                        }
                    }
                }
                proof {
                    let dirty = self.dirty_nodes@;
                    assert forall|v: u128| spread(cs, d0, node_id, v) implies dirty.contains(v) by {
                        let p = choose|p: Seq<u128>|
                            {
                                &&& is_path(cs, p)
                                &&& p.len() >= 2
                                &&& p[0] == node_id
                                &&& p.last() == v
                                &&& forall|k: int| 1 <= k < p.len() - 1 ==> !d0.contains(#[trigger] p[k])
                            };
                        self.lemma_spread_closed(d0, dirty, start, p, p.len() - 1);
                    }
                    assert(dirty =~= marked(cs, d0, node_id));
                }
            },
        }
    }

    /// The registry's keys are exactly the edge weights, so there are as many
    /// of them as there are edges.
    proof fn lemma_conns_len(&self)
        requires
            self.wf_core(),
        ensures
            self.connections@.dom().finite(),
            self.connections@.dom().len() == graph_edges(self.graph).len(),
    {
        let es = graph_edges(self.graph);
        let ws = es.map_values(|e: (usize, usize, u128)| e.2);
        assert forall|a: int, b: int| 0 <= a < ws.len() && 0 <= b < ws.len() && a != b implies ws[a]
            != ws[b] by {
            assert(ws[a] == es[a].2 && ws[b] == es[b].2);
        }
        assert(self.connections@.dom() =~= ws.to_set()) by {
            assert forall|c: u128| self.connections@.dom().contains(c) implies ws.to_set().contains(c) by {
                let k = choose|k: int| 0 <= k < es.len() && (#[trigger] es[k]).2 == c;
                assert(ws[k] == c);
            }
            assert forall|c: u128| ws.to_set().contains(c) implies self.connections@.dom().contains(c) by {
                let k = choose|k: int| 0 <= k < ws.len() && ws[k] == c;
                assert(es[k].2 == c);
            }
        }
        ws.unique_seq_to_set();
        vstd::seq_lib::seq_to_set_is_finite(ws);
    }

    /// The node identifiers are exactly the node weights.
    proof fn lemma_nodes_len(&self)
        requires
            self.wf_core(),
        ensures
            self.nodes().finite(),
            self.nodes().len() == graph_nodes(self.graph).len(),
    {
        let ns = graph_nodes(self.graph);
        assert(self.nodes() =~= ns.to_set()) by {
            assert forall|c: u128| self.nodes().contains(c) implies ns.to_set().contains(c) by {
                assert(ns[self.node_to_index@[c] as int] == c);
            }
            assert forall|c: u128| ns.to_set().contains(c) implies self.nodes().contains(c) by {
                let k = choose|k: int| 0 <= k < ns.len() && ns[k] == c;
            }
        }
        ns.unique_seq_to_set();
        vstd::seq_lib::seq_to_set_is_finite(ns);
    }

    /// An identifier that no connection of the registry has: a random one,
    /// or, should that be taken, the least unused value.
    fn fresh_connection_id(&self) -> (r: ConnectionId)
        requires
            self.wf_core(),
        ensures
            !self.conns().contains_key(r.0),
    {
        let candidate = ConnectionId::new();
        if !self.connections.contains_key(&candidate.0) {
            return candidate;
        }
        let count = topology_edge_count(&self.graph);
        let mut v: u128 = 0;
        while v <= count as u128
            invariant
                count == graph_edges(self.graph).len(),
                v <= count as u128 + 1,
                forall|u: u128| u < v ==> #[trigger] self.connections@.contains_key(u),
            decreases count as u128 + 1 - v,
        {
            if !self.connections.contains_key(&v) {
                return ConnectionId(v);
            }
            v += 1;
        }
        proof {
            self.lemma_conns_len();
            vstd::set_lib::range_set_properties::<u128>(0, (count as u128 + 1) as u128);
            assert(Set::<u128>::range(0, (count as u128 + 1) as u128).subset_of(self.connections@.dom()));
            vstd::set_lib::lemma_len_subset(Set::<u128>::range(0, (count as u128 + 1) as u128), self.connections@.dom());
        }
        ConnectionId(v)
    }

    /// Index of the edge whose weight is connection `w`.
    fn edge_index_of(&self, w: u128) -> (k: usize)
        requires
            self.wf_core(),
            self.connections@.contains_key(w),
        ensures
            k < graph_edges(self.graph).len(),
            graph_edges(self.graph)[k as int].2 == w,
    {
        let ghost es = graph_edges(self.graph);
        let count = topology_edge_count(&self.graph);
        let mut k: usize = 0;
        while k < count
            invariant
                self.wf_core(),
                es == graph_edges(self.graph),
                self.connections@.contains_key(w),
                count == es.len(),
                k <= count,
                forall|kk: int| 0 <= kk < k ==> (#[trigger] es[kk]).2 != w,
            decreases count - k,
        {
            let x = topology_edge_weight(&self.graph, k).unwrap();
            if x == w {
                return k;
            }
            k += 1;
        }
        proof {
            let kk = choose|kk: int| 0 <= kk < es.len() && (#[trigger] es[kk]).2 == w;
            assert(es[kk].2 != w);
        }
        k
    }

    /// Removes edge `k` and its connection from the registry.
    fn detach_edge(&mut self, k: usize)
        requires
            old(self).wf_core(),
            k < graph_edges(old(self).graph).len(),
        ensures
            final(self).wf_core(),
            graph_nodes(final(self).graph) == graph_nodes(old(self).graph),
            graph_edges(final(self).graph) == graph_edges(old(self).graph).update(
                k as int,
                graph_edges(old(self).graph).last(),
            ).drop_last(),
            final(self).connections@ == old(self).connections@.remove(
                graph_edges(old(self).graph)[k as int].2,
            ),
            final(self).node_to_index == old(self).node_to_index,
            final(self).evaluation_order == old(self).evaluation_order,
            final(self).dirty_nodes == old(self).dirty_nodes,
    {
        let ghost es = graph_edges(self.graph);
        let ghost cs = self.connections@;
        let w = topology_edge_weight(&self.graph, k).unwrap();
        self.connections.remove(&w);
        topology_remove_edge(&mut self.graph, k);
        proof {
            let es2 = graph_edges(self.graph);
            let cs2 = self.connections@;
            let last = es.len() - 1;
            assert forall|kk: int| 0 <= kk < es2.len() implies (#[trigger] es2[kk]) == es[if kk == k {
                last
            } else {
                kk
            }] by {}
            assert forall|kk: int| 0 <= kk < es2.len() implies {
                &&& (#[trigger] es2[kk]).0 < graph_nodes(self.graph).len()
                &&& es2[kk].1 < graph_nodes(self.graph).len()
                &&& cs2.contains_key(es2[kk].2)
                &&& cs2[es2[kk].2].id.0 == es2[kk].2
                &&& cs2[es2[kk].2].from_node.0 == graph_nodes(self.graph)[es2[kk].0 as int]
                &&& cs2[es2[kk].2].to_node.0 == graph_nodes(self.graph)[es2[kk].1 as int]
            } by {
                let src = if kk == k { last } else { kk };
                assert(es2[kk] == es[src]);
                assert(src != k);
            }
            assert forall|c: u128| #[trigger] cs2.contains_key(c) implies exists|kk: int|
                0 <= kk < es2.len() && (#[trigger] es2[kk]).2 == c by {
                let kk = choose|kk: int| 0 <= kk < es.len() && (#[trigger] es[kk]).2 == c;
                assert(kk != k);
                if kk == last {
                    assert(es2[k as int] == es[kk]);
                } else {
                    assert(es2[kk] == es[kk]);
                }
            }
            assert forall|k1: int, k2: int|
                0 <= k1 < es2.len() && 0 <= k2 < es2.len() && k1 != k2 implies (#[trigger] es2[k1]).2
                != (#[trigger] es2[k2]).2 by {
                let s1 = if k1 == k { last } else { k1 };
                let s2 = if k2 == k { last } else { k2 };
                assert(es2[k1] == es[s1] && es2[k2] == es[s2]);
            }
            assert(cs2.submap_of(cs));
            lemma_acyclic_submap(cs2, cs);
        }
    }

    /// Adds a node. Fails if a node with that identifier is present;
    /// otherwise the new node is dirty and takes its place in the order.
    pub fn add_node(&mut self, node_id: NodeId) -> (r: Result<(), GraphError>)
        requires
            old(self).wf(),
        ensures
            final(self).wf(),
            old(self).nodes().contains(node_id.0) ==> r == Err::<(), GraphError>(
                GraphError::NodeAlreadyExists(node_id),
            ) && *final(self) == *old(self),
            !old(self).nodes().contains(node_id.0) ==> {
                &&& r == Ok::<(), GraphError>(())
                &&& final(self).nodes() == old(self).nodes().insert(node_id.0)
                &&& final(self).conns() == old(self).conns()
                &&& final(self).dirty() == old(self).dirty().insert(node_id.0)
            },
    {
        if self.node_to_index.contains_key(&node_id.0) {
            return Err(GraphError::NodeAlreadyExists(node_id));
        }
        let ghost ns = graph_nodes(self.graph);
        let ghost es = graph_edges(self.graph);
        let ghost cs = self.connections@;
        let ghost d0 = self.dirty_nodes@;
        let index = topology_add_node(&mut self.graph, node_id.0);
        self.node_to_index.insert(node_id.0, index);
        proof {
            let ns2 = graph_nodes(self.graph);
            let idx = self.node_to_index@;
            assert(ns2 == ns.push(node_id.0));
            assert(!ns.contains(node_id.0)) by {
                if ns.contains(node_id.0) {
                    let i = choose|i: int| 0 <= i < ns.len() && ns[i] == node_id.0;
                    assert(old(self).node_to_index@.contains_key(ns[i]));
                }
            }
            assert forall|a: int, b: int| 0 <= a < ns2.len() && 0 <= b < ns2.len() && a != b implies ns2[a]
                != ns2[b] by {
                if a < ns.len() && b < ns.len() {
                    assert(ns2[a] == ns[a] && ns2[b] == ns[b]);
                } else if a < ns.len() {
                    assert(ns2[a] == ns[a]);
                    assert(ns.contains(ns[a]));
                } else if b < ns.len() {
                    assert(ns2[b] == ns[b]);
                    assert(ns.contains(ns[b]));
                }
            }
            assert forall|i: int| 0 <= i < ns2.len() implies idx.contains_key(#[trigger] ns2[i]) && idx[ns2[i]]
                == i by {
                if i < ns.len() {
                    assert(ns2[i] == ns[i]);
                    assert(old(self).node_to_index@.contains_key(ns[i]));
                }
            }
            assert forall|id: u128| #[trigger] idx.contains_key(id) implies idx[id] < ns2.len() && ns2[idx[id] as int]
                == id by {
                if id != node_id.0 {
                    assert(old(self).node_to_index@.contains_key(id));
                }
            }
            assert forall|k: int| 0 <= k < es.len() implies ns2[(#[trigger] es[k]).0 as int] == ns[es[k].0 as int]
                && ns2[es[k].1 as int] == ns[es[k].1 as int] by {}
        }
        self.evaluation_order = self.compute_order();
        self.mark_dirty_core(node_id.0);
        proof {
            assert forall|v: u128| !spread(cs, d0, node_id.0, v) by {
                if spread(cs, d0, node_id.0, v) {
                    let p = choose|p: Seq<u128>|
                        {
                            &&& is_path(cs, p)
                            &&& p.len() >= 2
                            &&& p[0] == node_id.0
                            &&& p.last() == v
                            &&& forall|k: int| 1 <= k < p.len() - 1 ==> !d0.contains(#[trigger] p[k])
                        };
                    assert(linked(cs, p[0], p[1]));
                    let c = choose|c: u128|
                        #![trigger cs[c]]
                        cs.contains_key(c) && cs[c].from_node.0 == p[0] && cs[c].to_node.0 == p[1];
                    old(self).lemma_consistent();
                }
            }
            assert(self.dirty() =~= d0.insert(node_id.0));
        }
        Ok(())
    }

    /// Removes a node together with every connection that has it as an
    /// endpoint. Fails if the node is absent.
    pub fn remove_node(&mut self, node_id: NodeId) -> (r: Result<(), GraphError>)
        requires
            old(self).wf(),
        ensures
            final(self).wf(),
            !old(self).nodes().contains(node_id.0) ==> r == Err::<(), GraphError>(
                GraphError::NodeNotFound(node_id),
            ) && *final(self) == *old(self),
            old(self).nodes().contains(node_id.0) ==> {
                &&& r == Ok::<(), GraphError>(())
                &&& final(self).nodes() == old(self).nodes().remove(node_id.0)
                &&& final(self).conns().submap_of(old(self).conns())
                &&& forall|c: u128|
                    #[trigger] final(self).conns().contains_key(c) <==> old(self).conns().contains_key(c)
                        && old(self).conns()[c].from_node != node_id && old(self).conns()[c].to_node
                        != node_id
                &&& final(self).dirty() == old(self).dirty().remove(node_id.0)
            },
    {
        let index = match self.node_to_index.get(&node_id.0) {
            None => {
                return Err(GraphError::NodeNotFound(node_id));
            },
            Some(i) => *i,
        };
        let ghost ns = graph_nodes(self.graph);
        let ghost cs0 = self.connections@;
        let mut k: usize = 0;
        while k < topology_edge_count(&self.graph)
            invariant
                self.wf_core(),
                graph_nodes(self.graph) == ns,
                self.node_to_index == old(self).node_to_index,
                self.dirty_nodes == old(self).dirty_nodes,
                cs0 == old(self).connections@,
                index < ns.len(),
                ns[index as int] == node_id.0,
                self.connections@.submap_of(cs0),
                forall|c: u128|
                    #[trigger] cs0.contains_key(c) && cs0[c].from_node.0 != node_id.0 && cs0[c].to_node.0
                        != node_id.0 ==> self.connections@.contains_key(c),
                k <= graph_edges(self.graph).len(),
                forall|kk: int|
                    0 <= kk < k ==> (#[trigger] graph_edges(self.graph)[kk]).0 != index
                        && graph_edges(self.graph)[kk].1 != index,
            decreases graph_edges(self.graph).len() - k,
        {
            let ghost es = graph_edges(self.graph);
            let w = topology_edge_weight(&self.graph, k).unwrap();
            let conn = *self.connections.get(&w).unwrap();
            if conn.from_node.0 == node_id.0 || conn.to_node.0 == node_id.0 {
                let ghost before = self.connections@;
                self.detach_edge(k);
                proof {
                    let es2 = graph_edges(self.graph);
                    assert forall|kk: int| 0 <= kk < k implies (#[trigger] es2[kk]).0 != index && es2[kk].1
                        != index by {
                        assert(es2[kk] == es[kk]);
                    }
                    assert(self.connections@.submap_of(cs0)) by {
                        assert(self.connections@.submap_of(before));
                    }
                }
            } else {
                proof {
                    assert(es[k as int].0 != index) by {
                        if es[k as int].0 == index {
                            assert(conn.from_node.0 == ns[index as int]);
                        }
                    }
                    assert(es[k as int].1 != index) by {
                        if es[k as int].1 == index {
                            assert(conn.to_node.0 == ns[index as int]);
                        }
                    }
                }
                k += 1;
            }
        }
        let ghost es = graph_edges(self.graph);
        proof {
            assert(k == es.len());
            assert forall|kk: int| 0 <= kk < es.len() implies (#[trigger] es[kk]).0 != index && es[kk].1
                != index by {
                assert(graph_edges(self.graph)[kk] == es[kk]);
            }
            let cs1 = self.connections@;
            assert forall|c: u128| #[trigger] cs1.contains_key(c) <==> cs0.contains_key(c)
                && cs0[c].from_node != node_id && cs0[c].to_node != node_id by {
                if cs1.contains_key(c) {
                    let kk = choose|kk: int| 0 <= kk < es.len() && (#[trigger] es[kk]).2 == c;
                    assert(cs1.submap_of(cs0));
                    assert(cs1.dom().contains(c));
                    assert(cs0.contains_key(c) && cs0[c] == cs1[c]);
                    assert(es[kk].0 != index && es[kk].1 != index);
                    assert(cs1[c].from_node.0 == ns[es[kk].0 as int]);
                    assert(cs1[c].to_node.0 == ns[es[kk].1 as int]);
                }
                if cs0.contains_key(c) && cs0[c].from_node != node_id && cs0[c].to_node != node_id {
                    assert(cs0[c].from_node.0 != node_id.0);
                    assert(cs0[c].to_node.0 != node_id.0);
                }
            }
        }
        let ghost idx0 = self.node_to_index@;
        let ghost last = (ns.len() - 1) as usize;
        topology_remove_node(&mut self.graph, index);
        self.node_to_index.remove(&node_id.0);
        let count = topology_node_count(&self.graph);
        if index < count {
            let moved_id = topology_node_weight(&self.graph, index).unwrap();
            self.node_to_index.insert(moved_id, index);
        }
        self.dirty_nodes.remove(&node_id.0);
        proof {
            let ns2 = graph_nodes(self.graph);
            let es2 = graph_edges(self.graph);
            let idx = self.node_to_index@;
            let cs = self.connections@;
            assert(ns2.len() == last);
            assert forall|i: int| 0 <= i < ns2.len() implies #[trigger] ns2[i] == ns[if i == index {
                last as int
            } else {
                i
            }] by {}
            assert forall|a: int, b: int| 0 <= a < ns2.len() && 0 <= b < ns2.len() && a != b implies ns2[a]
                != ns2[b] by {
                let sa = if a == index { last as int } else { a };
                let sb = if b == index { last as int } else { b };
                assert(ns2[a] == ns[sa] && ns2[b] == ns[sb]);
            }
            assert forall|i: int| 0 <= i < ns2.len() implies idx.contains_key(#[trigger] ns2[i]) && idx[ns2[i]]
                == i by {
                let si = if i == index { last as int } else { i };
                assert(ns2[i] == ns[si]);
                assert(idx0.contains_key(ns[si]) && idx0[ns[si]] == si);
                assert(ns[si] != node_id.0);
            }
            assert forall|id: u128| #[trigger] idx.contains_key(id) implies idx[id] < ns2.len() && ns2[idx[id] as int]
                == id by {
                if index < count && id == ns[last as int] {
                } else {
                    assert(idx0.contains_key(id));
                    assert(id != node_id.0);
                    let j = idx0[id];
                    assert(ns[j as int] == id);
                    assert(j != index);
                    if j == last {
                        assert(index < count);
                    }
                }
            }
            assert forall|kk: int| 0 <= kk < es2.len() implies {
                &&& (#[trigger] es2[kk]).0 < ns2.len()
                &&& es2[kk].1 < ns2.len()
                &&& cs.contains_key(es2[kk].2)
                &&& cs[es2[kk].2].id.0 == es2[kk].2
                &&& cs[es2[kk].2].from_node.0 == ns2[es2[kk].0 as int]
                &&& cs[es2[kk].2].to_node.0 == ns2[es2[kk].1 as int]
            } by {
                assert(es2[kk] == (moved(es[kk].0, last, index), moved(es[kk].1, last, index), es[kk].2));
                assert(es[kk].0 != index && es[kk].1 != index);
            }
            assert forall|c: u128| #[trigger] cs.contains_key(c) implies exists|kk: int|
                0 <= kk < es2.len() && (#[trigger] es2[kk]).2 == c by {
                let kk = choose|kk: int| 0 <= kk < es.len() && (#[trigger] es[kk]).2 == c;
                assert(es2[kk].2 == c);
            }
            assert forall|k1: int, k2: int|
                0 <= k1 < es2.len() && 0 <= k2 < es2.len() && k1 != k2 implies (#[trigger] es2[k1]).2
                != (#[trigger] es2[k2]).2 by {
                assert(es2[k1].2 == es[k1].2 && es2[k2].2 == es[k2].2);
            }
            assert(self.wf_core());
            assert(self.nodes() =~= old(self).nodes().remove(node_id.0)) by {
                if index < count {
                    assert(idx0.contains_key(ns[last as int]));
                }
            }
        }
        self.evaluation_order = self.compute_order();
        Ok(())
    }

    /// Connects output port `from_port` of `from_node` to input port
    /// `to_port` of `to_node`. Fails if either node is absent, or if the
    /// connection would close a cycle, in which case nothing changes. On
    /// success the target and what lies downstream of it are marked dirty.
    pub fn add_connection(
        &mut self,
        from_node: NodeId,
        from_port: usize,
        to_node: NodeId,
        to_port: usize,
        data_type: DataType,
    ) -> (r: Result<ConnectionId, GraphError>)
        requires
            old(self).wf(),
        ensures
            final(self).wf(),
            !old(self).nodes().contains(from_node.0) ==> r == Err::<ConnectionId, GraphError>(
                GraphError::NodeNotFound(from_node),
            ) && *final(self) == *old(self),
            old(self).nodes().contains(from_node.0) && !old(self).nodes().contains(to_node.0) ==> r
                == Err::<ConnectionId, GraphError>(GraphError::NodeNotFound(to_node)) && *final(self)
                == *old(self),
            old(self).nodes().contains(from_node.0) && old(self).nodes().contains(to_node.0) && reaches(
                old(self).conns(),
                to_node.0,
                from_node.0,
            ) ==> r == Err::<ConnectionId, GraphError>(GraphError::CycleDetected) && *final(self)
                == *old(self),
            old(self).nodes().contains(from_node.0) && old(self).nodes().contains(to_node.0) && !reaches(
                old(self).conns(),
                to_node.0,
                from_node.0,
            ) ==> {
                &&& r is Ok
                &&& !old(self).conns().contains_key(r->Ok_0.0)
                &&& final(self).conns() == old(self).conns().insert(
                    r->Ok_0.0,
                    NodeConnection { id: r->Ok_0, from_node, from_port, to_node, to_port, data_type },
                )
                &&& final(self).nodes() == old(self).nodes()
                &&& final(self).dirty() == marked(final(self).conns(), old(self).dirty(), to_node.0)
            },
    {
        let from_index = match self.node_to_index.get(&from_node.0) {
            None => {
                return Err(GraphError::NodeNotFound(from_node));
            },
            Some(i) => *i,
        };
        let to_index = match self.node_to_index.get(&to_node.0) {
            None => {
                return Err(GraphError::NodeNotFound(to_node));
            },
            Some(i) => *i,
        };
        if self.would_create_cycle(from_index, to_index) {
            return Err(GraphError::CycleDetected);
        }
        let connection_id = self.fresh_connection_id();
        let connection = NodeConnection {
            id: connection_id,
            from_node,
            from_port,
            to_node,
            to_port,
            data_type,
        };
        let ghost ns = graph_nodes(self.graph);
        let ghost es = graph_edges(self.graph);
        let ghost cs = self.connections@;
        topology_add_edge(&mut self.graph, from_index, to_index, connection_id.0);
        self.connections.insert(connection_id.0, connection);
        proof {
            let es2 = graph_edges(self.graph);
            let cs2 = self.connections@;
            assert(es2 == es.push((from_index, to_index, connection_id.0)));
            assert forall|kk: int| 0 <= kk < es2.len() implies {
                &&& (#[trigger] es2[kk]).0 < ns.len()
                &&& es2[kk].1 < ns.len()
                &&& cs2.contains_key(es2[kk].2)
                &&& cs2[es2[kk].2].id.0 == es2[kk].2
                &&& cs2[es2[kk].2].from_node.0 == ns[es2[kk].0 as int]
                &&& cs2[es2[kk].2].to_node.0 == ns[es2[kk].1 as int]
            } by {
                if kk < es.len() {
                    assert(es2[kk] == es[kk]);
                    assert(es[kk].2 != connection_id.0);
                }
            }
            assert forall|c: u128| #[trigger] cs2.contains_key(c) implies exists|kk: int|
                0 <= kk < es2.len() && (#[trigger] es2[kk]).2 == c by {
                if c == connection_id.0 {
                    assert(es2[es.len() as int].2 == c);
                } else {
                    let kk = choose|kk: int| 0 <= kk < es.len() && (#[trigger] es[kk]).2 == c;
                    assert(es2[kk] == es[kk]);
                }
            }
            assert forall|k1: int, k2: int|
                0 <= k1 < es2.len() && 0 <= k2 < es2.len() && k1 != k2 implies (#[trigger] es2[k1]).2
                != (#[trigger] es2[k2]).2 by {
                if k1 < es.len() {
                    assert(es2[k1] == es[k1]);
                }
                if k2 < es.len() {
                    assert(es2[k2] == es[k2]);
                }
            }
            lemma_acyclic_insert(cs, connection_id.0, connection);
        }
        self.mark_dirty_core(to_node.0);
        self.evaluation_order = self.compute_order();
        Ok(connection_id)
    }

    /// Removes a connection and marks its former target dirty. Fails if no
    /// connection has that identifier.
    pub fn remove_connection(&mut self, connection_id: ConnectionId) -> (r: Result<(), GraphError>)
        requires
            old(self).wf(),
        ensures
            final(self).wf(),
            !old(self).conns().contains_key(connection_id.0) ==> r == Err::<(), GraphError>(
                GraphError::ConnectionNotFound(connection_id),
            ) && *final(self) == *old(self),
            old(self).conns().contains_key(connection_id.0) ==> {
                &&& r == Ok::<(), GraphError>(())
                &&& final(self).conns() == old(self).conns().remove(connection_id.0)
                &&& final(self).nodes() == old(self).nodes()
                &&& final(self).dirty() == marked(
                    final(self).conns(),
                    old(self).dirty(),
                    old(self).conns()[connection_id.0].to_node.0,
                )
            },
    {
        let connection = match self.connections.get(&connection_id.0) {
            None => {
                return Err(GraphError::ConnectionNotFound(connection_id));
            },
            Some(c) => *c,
        };
        let k = self.edge_index_of(connection_id.0);
        self.detach_edge(k);
        self.mark_dirty_core(connection.to_node.0);
        self.evaluation_order = self.compute_order();
        Ok(())
    }

    /// Marks a node dirty, together with everything downstream of it up to
    /// nodes that were already dirty.
    pub fn mark_dirty(&mut self, node_id: NodeId)
        requires
            old(self).wf(),
        ensures
            final(self).wf(),
            final(self).nodes() == old(self).nodes(),
            final(self).conns() == old(self).conns(),
            final(self).order() == old(self).order(),
            final(self).dirty() == marked(old(self).conns(), old(self).dirty(), node_id.0),
    {
        self.mark_dirty_core(node_id.0);
    }

    /// Clears the dirty flag of one node; nodes downstream keep theirs.
    pub fn clear_dirty(&mut self, node_id: NodeId)
        requires
            old(self).wf(),
        ensures
            final(self).wf(),
            final(self).nodes() == old(self).nodes(),
            final(self).conns() == old(self).conns(),
            final(self).order() == old(self).order(),
            final(self).dirty() == old(self).dirty().remove(node_id.0),
    {
        self.dirty_nodes.remove(&node_id.0);
    }

    /// The evaluation order.
    pub fn evaluation_order(&self) -> (r: &[NodeId])
        ensures
            r@ == self.order(),
    {
        self.evaluation_order.as_slice()
    }

    /// The identifiers of the dirty nodes.
    pub fn dirty_nodes(&self) -> (r: &HashSet<u128>)
        ensures
            r@ == self.dirty(),
    {
        &self.dirty_nodes
    }

    /// Whether a node is marked dirty.
    pub fn is_dirty(&self, node_id: NodeId) -> (r: bool)
        ensures
            r == self.dirty().contains(node_id.0),
    {
        self.dirty_nodes.contains(&node_id.0)
    }

    /// Whether a node is present.
    pub fn contains_node(&self, node_id: NodeId) -> (r: bool)
        ensures
            r == self.nodes().contains(node_id.0),
    {
        self.node_to_index.contains_key(&node_id.0)
    }

    /// The number of nodes.
    pub fn node_count(&self) -> (r: usize)
        requires
            self.wf(),
        ensures
            r == self.nodes().len(),
    {
        proof {
            self.lemma_nodes_len();
        }
        topology_node_count(&self.graph)
    }

    /// The number of connections.
    pub fn connection_count(&self) -> (r: usize)
        requires
            self.wf(),
        ensures
            r == self.conns().len(),
    {
        proof {
            self.lemma_conns_len();
        }
        topology_edge_count(&self.graph)
    }

    /// The connections of the registry that enter `node_id` (when `inputs`)
    /// or leave it (when `outputs`), each once, in edge order.
    fn select_connections(&self, node_id: NodeId, inputs: bool, outputs: bool) -> (r: Vec<NodeConnection>)
        requires
            self.wf(),
        ensures
            r@.no_duplicates(),
            forall|c: NodeConnection|
                #[trigger] r@.contains(c) <==> self.conns().contains_key(c.id.0) && self.conns()[c.id.0]
                    == c && selects(c, node_id, inputs, outputs),
    {
        let ghost es = graph_edges(self.graph);
        let ghost cs = self.connections@;
        let count = topology_edge_count(&self.graph);
        let mut r: Vec<NodeConnection> = Vec::new();
        let mut k: usize = 0;
        while k < count
            invariant
                self.wf(),
                es == graph_edges(self.graph),
                cs == self.connections@,
                count == es.len(),
                k <= count,
                r@.no_duplicates(),
                forall|c: NodeConnection|
                    #[trigger] r@.contains(c) <==> cs.contains_key(c.id.0) && cs[c.id.0] == c && selects(
                        c,
                        node_id,
                        inputs,
                        outputs,
                    ) && exists|kk: int| 0 <= kk < k && (#[trigger] es[kk]).2 == c.id.0,
            decreases count - k,
        {
            let w = topology_edge_weight(&self.graph, k).unwrap();
            let c = *self.connections.get(&w).unwrap();
            let ghost before = r@;
            proof {
                assert(es[k as int].2 == w);
                assert(c.id.0 == w);
            }
            if (inputs && c.to_node == node_id) || (outputs && c.from_node == node_id) {
                r.push(c);
                proof {
                    assert(!before.contains(c)) by {
                        if before.contains(c) {
                            let kk = choose|kk: int| 0 <= kk < k && (#[trigger] es[kk]).2 == c.id.0;
                        }
                    }
                    assert(r@[r@.len() - 1] == c);
                    assert forall|a: int, b: int| 0 <= a < r@.len() && 0 <= b < r@.len() && a != b implies r@[a]
                        != r@[b] by {
                        if a < before.len() && b < before.len() {
                            assert(r@[a] == before[a] && r@[b] == before[b]);
                        } else if a < before.len() {
                            assert(r@[a] == before[a]);
                            assert(before.contains(before[a]));
                        } else if b < before.len() {
                            assert(r@[b] == before[b]);
                            assert(before.contains(before[b]));
                        }
                    }
                }
            }
            proof {
                assert forall|x: NodeConnection| #[trigger] r@.contains(x) <==> cs.contains_key(x.id.0)
                    && cs[x.id.0] == x && selects(x, node_id, inputs, outputs) && exists|kk: int|
                    0 <= kk < k + 1 && (#[trigger] es[kk]).2 == x.id.0 by {
                    if r@.contains(x) && !before.contains(x) {
                        assert(x == c);
                    }
                    if before.contains(x) {
                        let q = choose|q: int| 0 <= q < before.len() && before[q] == x;
                        assert(r@[q] == x);
                    }
                    if cs.contains_key(x.id.0) && cs[x.id.0] == x && selects(x, node_id, inputs, outputs)
                        && exists|kk: int| 0 <= kk < k + 1 && (#[trigger] es[kk]).2 == x.id.0 {
                        let kk = choose|kk: int| 0 <= kk < k + 1 && (#[trigger] es[kk]).2 == x.id.0;
                        if kk == k {
                            assert(x == c);
                            assert(r@[r@.len() - 1] == c);
                        }
                    }
                }
            }
            k += 1;
        }
        proof {
            assert forall|x: NodeConnection| #[trigger] r@.contains(x) <==> cs.contains_key(x.id.0) && cs[x.id.0]
                == x && selects(x, node_id, inputs, outputs) by {
                if cs.contains_key(x.id.0) {
                    let kk = choose|kk: int| 0 <= kk < es.len() && (#[trigger] es[kk]).2 == x.id.0;
                }
            }
        }
        r
    }

    /// The connections that have `node_id` as source or target; empty for an
    /// unknown node.
    pub fn get_connections_for_node(&self, node_id: NodeId) -> (r: Vec<NodeConnection>)
        requires
            self.wf(),
        ensures
            r@.no_duplicates(),
            forall|c: NodeConnection|
                #[trigger] r@.contains(c) <==> self.conns().contains_key(c.id.0) && self.conns()[c.id.0]
                    == c && (c.from_node == node_id || c.to_node == node_id),
    {
        self.select_connections(node_id, true, true)
    }

    /// The connections that enter `node_id`; empty for an unknown node.
    pub fn get_input_connections(&self, node_id: NodeId) -> (r: Vec<NodeConnection>)
        requires
            self.wf(),
        ensures
            r@.no_duplicates(),
            forall|c: NodeConnection|
                #[trigger] r@.contains(c) <==> self.conns().contains_key(c.id.0) && self.conns()[c.id.0]
                    == c && c.to_node == node_id,
    {
        self.select_connections(node_id, true, false)
    }

    /// The connections that leave `node_id`; empty for an unknown node.
    pub fn get_output_connections(&self, node_id: NodeId) -> (r: Vec<NodeConnection>)
        requires
            self.wf(),
        ensures
            r@.no_duplicates(),
            forall|c: NodeConnection|
                #[trigger] r@.contains(c) <==> self.conns().contains_key(c.id.0) && self.conns()[c.id.0]
                    == c && c.from_node == node_id,
    {
        self.select_connections(node_id, false, true)
    }
}

impl Default for NodeGraph {
    /// An empty graph.
    fn default() -> (r: NodeGraph)
        ensures
            r.wf(),
            r.nodes() == Set::<u128>::empty(),
            r.conns() == Map::<u128, NodeConnection>::empty(),
            r.order() == Seq::<NodeId>::empty(),
            r.dirty() == Set::<u128>::empty(),
    {
        NodeGraph::new()
    }
}

} // verus!
