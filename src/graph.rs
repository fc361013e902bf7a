//! The transfer multigraph, held in a petgraph `Graph`, and walks over it.

use petgraph::graph::{DiGraph, NodeIndex};
use petgraph::Direction;
use vstd::prelude::*;

verus! {

/// The transfer multigraph: node `i` is the `i`-th entity discovered, and edge
/// `e` is the `e`-th transfer record.
pub type TransferGraph = DiGraph<(), (), usize>;

#[verifier::external_type_specification]
#[verifier::external_body]
#[verifier::reject_recursive_types(N)]
#[verifier::reject_recursive_types(E)]
#[verifier::reject_recursive_types(Ty)]
#[verifier::reject_recursive_types(Ix)]
pub struct ExGraph<N, E, Ty, Ix>(petgraph::graph::Graph<N, E, Ty, Ix>);

#[verifier::external_type_specification]
#[verifier::external_body]
pub struct ExDirected(petgraph::Directed);

/// Number of nodes held by a graph.
pub uninterp spec fn node_count_of(g: DiGraph<(), (), usize>) -> usize;

/// The edges of a graph, by edge index, as (source node, destination node).
pub uninterp spec fn edges_of(g: DiGraph<(), (), usize>) -> Seq<(usize, usize)>;

/// Relies on petgraph's `Graph::default`: a graph with no node and no edge.
#[verifier::external_body]
pub(crate) fn graph_new() -> (g: TransferGraph)
    ensures
        node_count_of(g) == 0,
        edges_of(g) == Seq::<(usize, usize)>::empty(),
{
    DiGraph::<(), (), usize>::default()
}

/// Relies on petgraph's `Graph::add_node`: the new node's index is the old node
/// count, and the edges are untouched.
#[verifier::external_body]
pub(crate) fn graph_add_node(g: &mut TransferGraph) -> (r: usize)
    requires
        node_count_of(*old(g)) < usize::MAX,
    ensures
        r == node_count_of(*old(g)),
        node_count_of(*final(g)) == node_count_of(*old(g)) + 1,
        edges_of(*final(g)) == edges_of(*old(g)),
{
    g.add_node(()).index()
}

/// Relies on petgraph's `Graph::add_edge`: the edge from `a` to `b` is appended
/// and its index is the old edge count. It panics on a node out of bounds.
#[verifier::external_body]
pub(crate) fn graph_add_edge(g: &mut TransferGraph, a: usize, b: usize) -> (r: usize)
    requires
        a < node_count_of(*old(g)),
        b < node_count_of(*old(g)),
        edges_of(*old(g)).len() < usize::MAX,
    ensures
        r == edges_of(*old(g)).len(),
        edges_of(*final(g)) == edges_of(*old(g)).push((a, b)),
        node_count_of(*final(g)) == node_count_of(*old(g)),
{
    g.add_edge(NodeIndex::new(a), NodeIndex::new(b), ()).index()
}

/// Relies on petgraph's `Graph::neighbors_directed`: the nodes at the other end
/// of every edge leaving `a` (`outgoing`) or entering `a` (otherwise).
#[verifier::external_body]
pub(crate) fn graph_neighbors(g: &TransferGraph, a: usize, outgoing: bool) -> (r: Vec<usize>)
    ensures
        forall|w: usize| r@.contains(w) <==> step(edges_of(*g), a, w, outgoing),
{
    let dir = if outgoing {
        Direction::Outgoing
    } else {
        Direction::Incoming
    };
    g.neighbors_directed(NodeIndex::new(a), dir).map(|n| n.index()).collect()
}

/// Relies on petgraph's `Graph::find_edge`: some edge from `a` to `b`, or
/// `None` when there is none.
#[verifier::external_body]
pub(crate) fn graph_find_edge(g: &TransferGraph, a: usize, b: usize) -> (r: Option<usize>)
    ensures
        match r {
            Some(e) => e < edges_of(*g).len() && edges_of(*g)[e as int] == (a, b),
            None => !step(edges_of(*g), a, b, true),
        },
{
    g.find_edge(NodeIndex::new(a), NodeIndex::new(b)).map(|e| e.index())
}

/// There is an edge from `u` to `w` (`outgoing`), or from `w` to `u` (otherwise).
pub open spec fn step(edges: Seq<(usize, usize)>, u: usize, w: usize, outgoing: bool) -> bool {
    exists|e: int|
        0 <= e < edges.len() && #[trigger] edges[e] == (if outgoing {
            (u, w)
        } else {
            (w, u)
        })
}

/// Every two consecutive nodes of `p` are joined by a step.
pub open spec fn is_walk(edges: Seq<(usize, usize)>, p: Seq<usize>, outgoing: bool) -> bool {
    forall|i: int| 0 <= i < p.len() - 1 ==> #[trigger] step(edges, p[i], p[i + 1], outgoing)
}

/// `t` is reached from `s` by a walk of at least one step.
pub open spec fn reaches(edges: Seq<(usize, usize)>, s: usize, t: usize, outgoing: bool) -> bool {
    exists|p: Seq<usize>|
        #[trigger] is_walk(edges, p, outgoing) && p.len() >= 2 && p[0] == s && p.last() == t
}

/// A simple path: a forward walk that repeats no node.
pub open spec fn is_simple_path(edges: Seq<(usize, usize)>, p: Seq<usize>) -> bool {
    p.len() >= 1 && p.no_duplicates() && is_walk(edges, p, true)
}

/// A simple path from `s` to `t`.
pub open spec fn is_path_between(edges: Seq<(usize, usize)>, s: usize, t: usize, p: Seq<usize>) -> bool {
    is_simple_path(edges, p) && p[0] == s && p.last() == t
}

/// Every edge joins two nodes below `n`.
pub open spec fn edges_within(edges: Seq<(usize, usize)>, n: usize) -> bool {
    forall|e: int| 0 <= e < edges.len() ==> (#[trigger] edges[e]).0 < n && edges[e].1 < n
}

} // verus!
