//! The commit topology, kept in a `petgraph` graph.
//!
//! A node's weight is the author time of its commit; edges run from a commit
//! to each of its parents. Everything here is believed of `petgraph`, not
//! proved: the two names say what a graph holds, and each function states
//! what the method it calls does to that.

use petgraph::graph::{Graph, NodeIndex};
use petgraph::Directed;
use vstd::prelude::*;

verus! {

/// `petgraph::graph::Graph`, of which the verifier sees nothing but the name.
#[verifier::external_type_specification]
#[verifier::external_body]
#[verifier::reject_recursive_types(N)]
#[verifier::reject_recursive_types(E)]
#[verifier::reject_recursive_types(Ty)]
#[verifier::reject_recursive_types(Ix)]
pub struct ExGraph<N, E, Ty, Ix>(Graph<N, E, Ty, Ix>);

/// `petgraph::Directed`, the marker of graphs whose edges have a direction.
#[verifier::external_type_specification]
#[verifier::external_body]
pub struct ExDirected(Directed);

/// A directed graph of author times, indexed by `usize`.
pub type Topology = Graph<i64, (), Directed, usize>;

/// The node weights of a graph, by node index.
pub uninterp spec fn graph_weights(g: Graph<i64, (), Directed, usize>) -> Seq<i64>;

/// The edges of a graph as (source, target) node indices, in the order in
/// which they were added.
pub uninterp spec fn graph_edges(g: Graph<i64, (), Directed, usize>) -> Seq<(usize, usize)>;

/// The targets of the edges that leave `a`, in the order of `edges`.
pub open spec fn targets_from(edges: Seq<(usize, usize)>, a: usize) -> Seq<usize>
    decreases edges.len(),
{
    if edges.len() == 0 {
        Seq::empty()
    } else if edges.last().0 == a {
        targets_from(edges.drop_last(), a).push(edges.last().1)
    } else {
        targets_from(edges.drop_last(), a)
    }
}

/// `Graph::with_capacity(0, 0)`: a graph without nodes or edges.
#[verifier::external_body]
pub(crate) fn empty_graph() -> (g: Topology)
    ensures
        graph_weights(g) == Seq::<i64>::empty(),
        graph_edges(g) == Seq::<(usize, usize)>::empty(),
{
    Graph::with_capacity(0, 0)
}

/// `Graph::node_count`: the number of nodes.
#[verifier::external_body]
pub(crate) fn node_count(g: &Topology) -> (n: usize)
    ensures
        n == graph_weights(*g).len(),
{
    g.node_count()
}

/// `Graph::add_node`: the new node gets the next index and comes last; the
/// edges stay as they are. With `usize` indices the graph has no node limit.
#[verifier::external_body]
pub(crate) fn add_node(g: &mut Topology, weight: i64) -> (index: usize)
    ensures
        index == graph_weights(*old(g)).len(),
        graph_weights(*final(g)) == graph_weights(*old(g)).push(weight),
        graph_edges(*final(g)) == graph_edges(*old(g)),
{
    g.add_node(weight).index()
}

/// `Graph::add_edge`: the edge from `a` to `b` comes last; the nodes stay as
/// they are. The method panics when either node is missing, so both must exist.
#[verifier::external_body]
pub(crate) fn add_edge(g: &mut Topology, a: usize, b: usize)
    requires
        a < graph_weights(*old(g)).len(),
        b < graph_weights(*old(g)).len(),
    ensures
        graph_edges(*final(g)) == graph_edges(*old(g)).push((a, b)),
        graph_weights(*final(g)) == graph_weights(*old(g)),
{
    g.add_edge(NodeIndex::new(a), NodeIndex::new(b), ());
}

/// Indexing a graph by a node index: the weight of node `a`, which must exist.
#[verifier::external_body]
pub(crate) fn node_weight(g: &Topology, a: usize) -> (weight: i64)
    requires
        a < graph_weights(*g).len(),
    ensures
        weight == graph_weights(*g)[a as int],
{
    g[NodeIndex::new(a)]
}

/// `Graph::neighbors`: the targets of the edges that leave `a`, the most
/// recently added edge first.
#[verifier::external_body]
pub(crate) fn neighbors(g: &Topology, a: usize) -> (targets: Vec<usize>)
    ensures
        targets@ == targets_from(graph_edges(*g), a).reverse(),
{
    g.neighbors(NodeIndex::new(a)).map(|n| n.index()).collect()
}

} // verus!
