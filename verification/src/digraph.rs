//! The dependency graph's storage: `petgraph`'s directed graph, used through
//! a handful of calls whose behaviour is stated here and taken on trust.

use petgraph::graph::DiGraph;
use petgraph::graph::NodeIndex;
use petgraph::Direction;
use vstd::prelude::*;

verus! {

/// `petgraph`'s `Graph`, of which `DiGraph` is the directed kind. Nothing
/// is known of its inside; what is said of a graph is said over
/// `graph_nodes` and `graph_edges`.
#[verifier::external_type_specification]
#[verifier::external_body]
#[verifier::reject_recursive_types(N)]
#[verifier::reject_recursive_types(E)]
#[verifier::reject_recursive_types(Ty)]
#[verifier::reject_recursive_types(Ix)]
pub struct ExGraph<N, E, Ty, Ix>(petgraph::graph::Graph<N, E, Ty, Ix>);

/// `petgraph`'s marker for graphs with directed edges.
#[verifier::external_type_specification]
#[verifier::external_body]
pub struct ExDirected(petgraph::Directed);

/// The node weights of a graph, by node index. The calls below say what
/// it is: empty for a new graph, one longer after `add_node`.
pub uninterp spec fn graph_nodes(g: DiGraph<String, ()>) -> Seq<Seq<char>>;

/// The edges of a graph as (source, target) pairs of node indices, in the
/// order in which they were added. The calls below say what it is: empty
/// for a new graph, one longer after `add_edge`.
pub uninterp spec fn graph_edges(g: DiGraph<String, ()>) -> Seq<(int, int)>;

/// The sources of the edges that end in `a`, latest edge first.
pub open spec fn incoming_sources(edges: Seq<(int, int)>, a: int) -> Seq<int>
    decreases edges.len(),
{
    if edges.len() == 0 {
        Seq::empty()
    } else {
        let earlier = incoming_sources(edges.drop_last(), a);
        if edges.last().1 == a {
            seq![edges.last().0] + earlier
        } else {
            earlier
        }
    }
}

/// `DiGraph::new`: a graph without nodes or edges.
#[verifier::external_body]
pub(crate) fn graph_new() -> (g: DiGraph<String, ()>)
    ensures
        graph_nodes(g) == Seq::<Seq<char>>::empty(),
        graph_edges(g) == Seq::<(int, int)>::empty(),
{
    DiGraph::new()
}

/// `Graph::add_node`: appends a node and returns its index, which is the
/// number of nodes before the call. Indices of existing nodes and all edges
/// stay as they were. The call panics once the 32-bit index space is used
/// up, hence the bound.
#[verifier::external_body]
pub(crate) fn graph_add_node(g: &mut DiGraph<String, ()>, weight: String) -> (idx: usize)
    requires
        graph_nodes(*old(g)).len() < u32::MAX,
    ensures
        graph_nodes(*final(g)) == graph_nodes(*old(g)).push(weight@),
        graph_edges(*final(g)) == graph_edges(*old(g)),
        idx == graph_nodes(*old(g)).len(),
{
    g.add_node(weight).index()
}

/// `Graph::add_edge`: appends the edge `a -> b`; parallel edges and
/// self-loops are kept. The call panics on a node that does not exist and
/// once the 32-bit index space is used up, hence the bounds.
#[verifier::external_body]
pub(crate) fn graph_add_edge(g: &mut DiGraph<String, ()>, a: usize, b: usize)
    requires
        a < graph_nodes(*old(g)).len(),
        b < graph_nodes(*old(g)).len(),
        graph_edges(*old(g)).len() < u32::MAX,
    ensures
        graph_nodes(*final(g)) == graph_nodes(*old(g)),
        graph_edges(*final(g)) == graph_edges(*old(g)).push((a as int, b as int)),
{
    g.add_edge(NodeIndex::new(a), NodeIndex::new(b), ());
}

/// `Graph::node_indices`: the indices `0..n` of the graph's `n` nodes, in
/// ascending order.
#[verifier::external_body]
pub(crate) fn graph_node_indices(g: &DiGraph<String, ()>) -> (res: Vec<usize>)
    ensures
        res@.len() == graph_nodes(*g).len(),
        forall|i: int| 0 <= i < res@.len() ==> res@[i] == i,
{
    g.node_indices().map(|i| i.index()).collect()
}

/// Indexing a graph by a node index: the weight of that node. It panics on
/// a node that does not exist, hence the bound.
#[verifier::external_body]
pub(crate) fn graph_node_weight(g: &DiGraph<String, ()>, a: usize) -> (res: &String)
    requires
        a < graph_nodes(*g).len(),
    ensures
        res@ == graph_nodes(*g)[a as int],
{
    &g[NodeIndex::new(a)]
}

/// `Graph::neighbors_directed` with `Direction::Incoming`: the source of
/// every edge that ends in `a`, self-loops included, the most recently
/// added edge first.
#[verifier::external_body]
pub(crate) fn graph_incoming(g: &DiGraph<String, ()>, a: usize) -> (res: Vec<usize>)
    requires
        a < graph_nodes(*g).len(),
    ensures
        res@.len() == incoming_sources(graph_edges(*g), a as int).len(),
        forall|i: int|
            0 <= i < res@.len() ==> res@[i] as int == incoming_sources(
                graph_edges(*g),
                a as int,
            )[i],
{
    g.neighbors_directed(NodeIndex::new(a), Direction::Incoming).map(|n| n.index()).collect()
}

} // verus!
