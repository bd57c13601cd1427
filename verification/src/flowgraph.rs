//! Trusted interface to the directed graphs of `petgraph`.
//!
//! A control-flow graph is a `petgraph::graph::Graph` with `usize` indices and
//! unit weights; the statement data of each vertex lives outside the graph, in
//! an index-aligned vector (see `crate::cfg`). Two names describe what a graph
//! holds: `graph_node_count`, the number of vertices, and `graph_edges`, the
//! directed edges in insertion order. Every wrapper states, over those names,
//! what the `petgraph` call it makes does.

use petgraph::graph::Graph;
use petgraph::graph::NodeIndex;
use petgraph::visit::EdgeRef;
use petgraph::Directed;
use vstd::prelude::*;

verus! {

#[verifier::external_type_specification]
#[verifier::external_body]
#[verifier::reject_recursive_types(N)]
#[verifier::reject_recursive_types(E)]
#[verifier::reject_recursive_types(Ty)]
#[verifier::reject_recursive_types(Ix)]
pub struct ExGraph<N, E, Ty, Ix>(Graph<N, E, Ty, Ix>);

#[verifier::external_type_specification]
#[verifier::external_body]
pub struct ExDirected(Directed);

/// A directed graph with `usize` indices, unit node and edge weights.
pub type FlowGraph = Graph<(), (), Directed, usize>;

/// How many vertices a flow graph holds. Vertices are never removed, so the
/// vertices are exactly the indices below this count.
pub uninterp spec fn graph_node_count(g: FlowGraph) -> nat;

/// The directed edges a flow graph holds, in insertion order.
pub uninterp spec fn graph_edges(g: FlowGraph) -> Seq<(usize, usize)>;

/// Relies on `Graph::with_capacity`: the fresh graph has no vertices and no
/// edges.
#[verifier::external_body]
pub(crate) fn graph_new() -> (g: FlowGraph)
    ensures
        graph_node_count(g) == 0,
        graph_edges(g) == Seq::<(usize, usize)>::empty(),
{
    Graph::with_capacity(0, 0)
}

/// Relies on `Graph::add_node`: it appends one vertex and returns its index,
/// which is the previous vertex count; edges are untouched. With `usize`
/// indices the index-capacity panic cannot be reached (`petgraph` documents
/// it as "N/A if usize", and that many vertices cannot exist in memory).
#[verifier::external_body]
pub(crate) fn graph_add_node(g: &mut FlowGraph) -> (i: usize)
    ensures
        i as nat == graph_node_count(*old(g)),
        graph_node_count(*final(g)) == graph_node_count(*old(g)) + 1,
        graph_edges(*final(g)) == graph_edges(*old(g)),
{
    g.add_node(()).index()
}

/// Relies on `Graph::add_edge`: it appends one directed edge from `a` to `b`
/// and touches no vertex. It panics on an out-of-range endpoint, which the
/// precondition rules out; with `usize` indices the edge-capacity panic
/// cannot be reached (documented "N/A if usize", and that many edges cannot
/// exist in memory).
#[verifier::external_body]
pub(crate) fn graph_add_edge(g: &mut FlowGraph, a: usize, b: usize)
    requires
        a < graph_node_count(*old(g)),
        b < graph_node_count(*old(g)),
    ensures
        graph_node_count(*final(g)) == graph_node_count(*old(g)),
        graph_edges(*final(g)) == graph_edges(*old(g)).push((a, b)),
{
    let _ = g.add_edge(NodeIndex::new(a), NodeIndex::new(b), ());
}

/// Relies on `Graph::edge_references`, which yields every edge in edge-index
/// order, that is, in insertion order, and on `EdgeRef::source`/`target`.
#[verifier::external_body]
pub(crate) fn graph_edge_list(g: &FlowGraph) -> (r: Vec<(usize, usize)>)
    ensures
        r@ == graph_edges(*g),
{
    g.edge_references().map(|e| (e.source().index(), e.target().index())).collect()
}

/// A consecutive-edge walk through `edges` from `from` to `to`, with at least
/// one edge.
pub open spec fn is_walk(
    edges: Seq<(usize, usize)>,
    p: Seq<usize>,
    from: usize,
    to: usize,
) -> bool {
    &&& p.len() >= 2
    &&& p[0] == from
    &&& p.last() == to
    &&& forall|i: int| 0 <= i < p.len() - 1 ==> #[trigger] edges.contains((p[i], p[i + 1]))
}

/// A simple path: a walk that repeats no vertex.
pub open spec fn is_simple_path(
    edges: Seq<(usize, usize)>,
    p: Seq<usize>,
    from: usize,
    to: usize,
) -> bool {
    &&& is_walk(edges, p, from, to)
    &&& forall|i: int, j: int| 0 <= i < j < p.len() ==> p[i] != p[j]
}

/// Relies on `petgraph::algo::all_simple_paths` with no bound on intermediate
/// nodes: it enumerates the simple paths from `from` to `to`. Each returned
/// sequence is a simple path, and every simple path is returned. The
/// enumeration never yields the zero-length path, so for `from == to` the
/// result is empty.
#[verifier::external_body]
pub(crate) fn graph_simple_paths(g: &FlowGraph, from: usize, to: usize) -> (r: Vec<Vec<usize>>)
    requires
        from < graph_node_count(*g),
        to < graph_node_count(*g),
    ensures
        forall|k: int|
            0 <= k < r@.len() ==> is_simple_path(graph_edges(*g), #[trigger] r@[k]@, from, to),
        forall|p: Seq<usize>|
            is_simple_path(graph_edges(*g), p, from, to) ==> exists|k: int|
                0 <= k < r@.len() && #[trigger] r@[k]@ == p,
{
    let paths: Vec<Vec<NodeIndex<usize>>> = petgraph::algo::all_simple_paths::<
        Vec<_>,
        _,
        std::collections::hash_map::RandomState,
    >(g, NodeIndex::new(from), NodeIndex::new(to), 0, None).collect();
    paths.into_iter().map(|p| p.into_iter().map(|n| n.index()).collect()).collect()
}

} // verus!
