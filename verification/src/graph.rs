//! The directed graph that the layout works on, kept in `petgraph`.
//!
//! Verus does not look inside a `petgraph` graph. What the layout needs to
//! know of one is named here: how many nodes it has and the list of its
//! edges, in the order in which they were added. The functions below are the
//! only places that touch the graph; their contracts are taken on trust from
//! the `petgraph` sources.

use vstd::prelude::*;

verus! {

/// `petgraph::Directed`, the marker of a graph with directed edges.
#[verifier::external_type_specification]
#[verifier::external_body]
pub struct ExDirected(petgraph::Directed);

/// `petgraph::graph::Graph`. Its content is opaque here; `graph_node_count`
/// and `graph_edges` name what the layout needs of it.
#[verifier::external_type_specification]
#[verifier::external_body]
#[verifier::reject_recursive_types(N)]
#[verifier::reject_recursive_types(E)]
#[verifier::reject_recursive_types(Ty)]
#[verifier::reject_recursive_types(Ix)]
pub struct ExGraph<N, E, Ty, Ix>(petgraph::graph::Graph<N, E, Ty, Ix>);

/// Number of nodes of a graph. Nodes are numbered from zero in the order in
/// which they were added.
pub uninterp spec fn graph_node_count(g: petgraph::graph::Graph<(), (), petgraph::Directed, u32>) -> nat;

/// The edges of a graph as `(source, target)` pairs, oldest first.
pub uninterp spec fn graph_edges(g: petgraph::graph::Graph<(), (), petgraph::Directed, u32>) -> Seq<(int, int)>;

/// Every edge joins two existing nodes.
pub open spec fn edges_in_range(n: int, edges: Seq<(int, int)>) -> bool {
    forall|i: int| 0 <= i < edges.len() ==> 0 <= (#[trigger] edges[i]).0 < n && 0 <= edges[i].1 < n
}

/// The nodes next to `v`, most recently added edge first: the sources of the
/// edges into `v` when `incoming` holds, else the targets of the edges out of
/// `v`.
pub open spec fn neighbors_of(edges: Seq<(int, int)>, v: int, incoming: bool) -> Seq<int>
    decreases edges.len(),
{
    if edges.len() == 0 {
        Seq::empty()
    } else {
        let e = edges.last();
        let rest = neighbors_of(edges.drop_last(), v, incoming);
        if incoming && e.1 == v {
            seq![e.0] + rest
        } else if !incoming && e.0 == v {
            seq![e.1] + rest
        } else {
            rest
        }
    }
}

/// `order` has `n` entries, lists every node below `n` exactly once, and every
/// edge leads from an earlier entry to a later one.
pub open spec fn is_topological_order(order: Seq<int>, n: int, edges: Seq<(int, int)>) -> bool {
    &&& order.len() == n
    &&& forall|i: int| 0 <= i < n ==> 0 <= #[trigger] order[i] < n
    &&& forall|i: int, j: int| 0 <= i < j < n ==> order[i] != order[j]
    &&& forall|v: int| 0 <= v < n ==> #[trigger] order.contains(v)
    &&& forall|i: int, j: int|
        0 <= i < n && 0 <= j < n && edges.contains((order[i], order[j])) ==> i < j
}

/// A graph is acyclic when its nodes can be put in a topological order.
pub open spec fn is_acyclic(n: int, edges: Seq<(int, int)>) -> bool {
    exists|order: Seq<int>| is_topological_order(order, n, edges)
}

/// Node numbers as mathematical integers.
pub open spec fn indices_view(v: Seq<usize>) -> Seq<int> {
    v.map_values(|x: usize| x as int)
}

/// `petgraph::graph::Graph::new`: a graph without nodes or edges.
#[verifier::external_body]
pub(crate) fn graph_new() -> (g: petgraph::graph::Graph<(), (), petgraph::Directed, u32>)
    ensures
        graph_node_count(g) == 0,
        graph_edges(g) == Seq::<(int, int)>::empty(),
{
    petgraph::graph::Graph::new()
}

/// `petgraph::graph::Graph::add_node`: appends a node and returns its number,
/// which is the number of nodes there were before. The edges are untouched.
/// The graph must have room for one more node under its 32-bit index type.
#[verifier::external_body]
pub(crate) fn graph_add_node(g: &mut petgraph::graph::Graph<(), (), petgraph::Directed, u32>) -> (idx: usize)
    requires
        graph_node_count(*old(g)) < u32::MAX,
    ensures
        idx == graph_node_count(*old(g)),
        graph_node_count(*final(g)) == graph_node_count(*old(g)) + 1,
        graph_edges(*final(g)) == graph_edges(*old(g)),
{
    g.add_node(()).index()
}

/// `petgraph::graph::Graph::add_edge`: appends the edge `a -> b`; parallel
/// edges and self-loops are kept. Both nodes must exist, and the graph must
/// have room for one more edge under its 32-bit index type.
#[verifier::external_body]
pub(crate) fn graph_add_edge(
    g: &mut petgraph::graph::Graph<(), (), petgraph::Directed, u32>,
    a: usize,
    b: usize,
)
    requires
        a < graph_node_count(*old(g)),
        b < graph_node_count(*old(g)),
        graph_node_count(*old(g)) <= u32::MAX,
        graph_edges(*old(g)).len() < u32::MAX,
    ensures
        graph_node_count(*final(g)) == graph_node_count(*old(g)),
        graph_edges(*final(g)) == graph_edges(*old(g)).push((a as int, b as int)),
{
    g.add_edge(petgraph::graph::NodeIndex::new(a), petgraph::graph::NodeIndex::new(b), ());
}

/// `petgraph::graph::Graph::neighbors_directed` with `Direction::Incoming`:
/// the sources of the edges into `v`, most recently added edge first.
#[verifier::external_body]
pub(crate) fn graph_incoming(
    g: &petgraph::graph::Graph<(), (), petgraph::Directed, u32>,
    v: usize,
) -> (r: Vec<usize>)
    requires
        v < graph_node_count(*g) <= u32::MAX,
    ensures
        indices_view(r@) == neighbors_of(graph_edges(*g), v as int, true),
{
    g.neighbors_directed(petgraph::graph::NodeIndex::new(v), petgraph::Direction::Incoming)
        .map(|i| i.index())
        .collect()
}

/// `petgraph::graph::Graph::neighbors_directed` with `Direction::Outgoing`:
/// the targets of the edges out of `v`, most recently added edge first.
#[verifier::external_body]
pub(crate) fn graph_outgoing(
    g: &petgraph::graph::Graph<(), (), petgraph::Directed, u32>,
    v: usize,
) -> (r: Vec<usize>)
    requires
        v < graph_node_count(*g) <= u32::MAX,
    ensures
        indices_view(r@) == neighbors_of(graph_edges(*g), v as int, false),
{
    g.neighbors_directed(petgraph::graph::NodeIndex::new(v), petgraph::Direction::Outgoing)
        .map(|i| i.index())
        .collect()
}

/// `petgraph::algo::toposort`: for an acyclic graph, its nodes in an order in
/// which every node comes before its successors; for a graph with a cycle
/// (a self-loop is one), nothing.
#[verifier::external_body]
pub(crate) fn graph_toposort(
    g: &petgraph::graph::Graph<(), (), petgraph::Directed, u32>,
) -> (r: Option<Vec<usize>>)
    ensures
        match r {
            Some(order) => is_topological_order(
                indices_view(order@),
                graph_node_count(*g) as int,
                graph_edges(*g),
            ),
            None => !is_acyclic(graph_node_count(*g) as int, graph_edges(*g)),
        },
{
    match petgraph::algo::toposort(g, None) {
        Ok(order) => Some(order.into_iter().map(|i| i.index()).collect()),
        Err(_) => None,
    }
}

} // verus!
