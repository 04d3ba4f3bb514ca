//! The petgraph multigraph that holds the nodes and edges, and what this
//! library relies on of it. Nothing in this file is proved: each
//! function states what petgraph's `Graph` does, and the rest of the
//! library is verified against these statements.
use vstd::prelude::*;
use petgraph::graph::{NodeIndex, UnGraph};
use petgraph::visit::EdgeRef;
use crate::graph_model::{adjacent, connecting};

verus! {

/// petgraph's `Graph`, opaque to the verifier.
#[verifier::external_type_specification]
#[verifier::external_body]
#[verifier::reject_recursive_types(N)]
#[verifier::reject_recursive_types(E)]
#[verifier::reject_recursive_types(Ty)]
#[verifier::reject_recursive_types(Ix)]
pub struct ExGraph<N, E, Ty, Ix>(petgraph::graph::Graph<N, E, Ty, Ix>);

/// petgraph's marker for undirected edges.
#[verifier::external_type_specification]
#[verifier::external_body]
pub struct ExUndirected(petgraph::Undirected);

/// The node weights of a graph, by node index.
pub uninterp spec fn node_weights(g: UnGraph<String, String>) -> Seq<Seq<char>>;

/// The edges of a graph, by edge index: source, target and weight.
pub uninterp spec fn edge_list(g: UnGraph<String, String>) -> Seq<(int, int, Seq<char>)>;

/// Whether each node's two chains of edges, the one of the edges that
/// start at it and the one of the edges that end at it, run from the
/// highest edge index down to the lowest. It is so in a graph to which
/// nodes and edges were only ever added.
pub uninterp spec fn newest_first(g: UnGraph<String, String>) -> bool;

/// `UnGraph::new_undirected`: a graph without nodes and edges.
#[verifier::external_body]
pub(crate) fn store_new() -> (g: UnGraph<String, String>)
    ensures
        node_weights(g) == Seq::<Seq<char>>::empty(),
        edge_list(g) == Seq::<(int, int, Seq<char>)>::empty(),
        newest_first(g),
{
    UnGraph::new_undirected()
}

/// `Graph::node_count`: the number of nodes.
#[verifier::external_body]
pub(crate) fn store_node_count(g: &UnGraph<String, String>) -> (n: usize)
    ensures
        n == node_weights(*g).len(),
{
    g.node_count()
}

/// `Graph::edge_count`: the number of edges.
#[verifier::external_body]
pub(crate) fn store_edge_count(g: &UnGraph<String, String>) -> (n: usize)
    ensures
        n == edge_list(*g).len(),
{
    g.edge_count()
}

/// `Graph::add_node`: appends a node with a copy of `weight` and returns
/// its index, the former node count. Edges and the order of the chains
/// stay. petgraph panics when the index would be `u32::MAX`.
#[verifier::external_body]
pub(crate) fn store_add_node(g: &mut UnGraph<String, String>, weight: &String) -> (index: usize)
    requires
        node_weights(*old(g)).len() < u32::MAX,
    ensures
        node_weights(*final(g)) == node_weights(*old(g)).push(weight@),
        edge_list(*final(g)) == edge_list(*old(g)),
        newest_first(*old(g)) ==> newest_first(*final(g)),
        index == node_weights(*old(g)).len(),
{
    g.add_node(weight.clone()).index()
}

/// `Graph::add_edge`: appends an edge from node `a` to node `b` with a
/// copy of `weight`, at the head of both nodes' chains. Nodes stay.
/// petgraph panics when a node is missing or the edge's index would be
/// `u32::MAX`.
#[verifier::external_body]
pub(crate) fn store_add_edge(g: &mut UnGraph<String, String>, a: usize, b: usize, weight: &String)
    requires
        a < node_weights(*old(g)).len(),
        b < node_weights(*old(g)).len(),
        edge_list(*old(g)).len() < u32::MAX,
    ensures
        node_weights(*final(g)) == node_weights(*old(g)),
        edge_list(*final(g)) == edge_list(*old(g)).push((a as int, b as int, weight@)),
        newest_first(*old(g)) ==> newest_first(*final(g)),
{
    g.add_edge(NodeIndex::new(a), NodeIndex::new(b), weight.clone());
}

/// `Graph::node_weight` on a node that exists: its weight.
#[verifier::external_body]
pub(crate) fn store_node_weight(g: &UnGraph<String, String>, a: usize) -> (weight: &String)
    requires
        a < node_weights(*g).len(),
    ensures
        weight@ == node_weights(*g)[a as int],
{
    g.node_weight(NodeIndex::new(a)).unwrap()
}

/// `Graph::edge_references`: all edges in index order, each as source,
/// target and a copy of its weight. Both ends of an edge are nodes of
/// the graph.
#[verifier::external_body]
pub(crate) fn store_edges(g: &UnGraph<String, String>) -> (edges: Vec<(usize, usize, String)>)
    ensures
        edges@.len() == edge_list(*g).len(),
        forall|k: int|
            0 <= k < edges@.len() ==> {
                &&& (#[trigger] edges@[k]).0 == edge_list(*g)[k].0
                &&& edges@[k].1 == edge_list(*g)[k].1
                &&& edges@[k].2@ == edge_list(*g)[k].2
                &&& edges@[k].0 < node_weights(*g).len()
                &&& edges@[k].1 < node_weights(*g).len()
            },
{
    g.edge_references().map(|e| (e.source().index(), e.target().index(), e.weight().clone())).collect()
}

/// `Graph::neighbors` on an undirected graph whose chains run newest
/// first: the far end of each edge at node `a`, one entry for each
/// edge; first along the edges that start at `a`, newest first, then
/// along those that end at `a` and start elsewhere, newest first. All
/// of them are nodes of the graph.
#[verifier::external_body]
pub(crate) fn store_neighbors(g: &UnGraph<String, String>, a: usize) -> (found: Vec<usize>)
    requires
        a < node_weights(*g).len(),
        newest_first(*g),
    ensures
        found@.len() == adjacent(edge_list(*g), a as int).len(),
        forall|k: int| 0 <= k < found@.len() ==> #[trigger] found@[k] == adjacent(edge_list(*g), a as int)[k],
        forall|k: int| 0 <= k < found@.len() ==> #[trigger] found@[k] < node_weights(*g).len(),
{
    g.neighbors(NodeIndex::new(a)).map(|n| n.index()).collect()
}

/// `Graph::edges_connecting` on an undirected graph whose chains run
/// newest first: a copy of the weight of each edge between nodes `a`
/// and `b`; first the edges from `a` to `b`, newest first, then, where
/// the two differ, the edges from `b` to `a`, newest first.
#[verifier::external_body]
pub(crate) fn store_edges_connecting(g: &UnGraph<String, String>, a: usize, b: usize) -> (labels: Vec<String>)
    requires
        a < node_weights(*g).len(),
        b < node_weights(*g).len(),
        newest_first(*g),
    ensures
        labels@.len() == connecting(edge_list(*g), a as int, b as int).len(),
        forall|k: int| 0 <= k < labels@.len() ==> (#[trigger] labels@[k])@ == connecting(edge_list(*g), a as int, b as int)[k],
{
    g.edges_connecting(NodeIndex::new(a), NodeIndex::new(b)).map(|e| e.weight().clone()).collect()
}

} // verus!
