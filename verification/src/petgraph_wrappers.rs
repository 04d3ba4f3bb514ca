//! The relationship graph: an undirected multigraph of named entities
//! in which every relation is an edge of its own, with a table from the
//! names to the node indices.
use vstd::prelude::*;
use vstd::hash_map::StringHashMap;
use petgraph::graph::UnGraph;
use vstd::string::*;
use crate::text::str_less;
use crate::graph_model::{
    adjacent, connecting, graphviz_line, graphviz_lines, graphviz_text, lemma_names_within,
    lemma_position, lemma_with_edge, lemma_with_edges, lemma_with_node, mermaid_line,
    mermaid_lines, mermaid_text, neighborhood, spotlight, GraphView,
};
use crate::neighborhood_laws::lemma_spotlight_star;
use crate::petgraph_store::{
    edge_list, newest_first, node_weights, store_add_edge, store_add_node, store_edge_count,
    store_edges, store_edges_connecting, store_neighbors, store_new, store_node_count,
    store_node_weight,
};

verus! {

/// What a petgraph graph of names and labels holds.
pub open spec fn graph_view(g: UnGraph<String, String>) -> GraphView {
    GraphView { nodes: node_weights(g), edges: edge_list(g) }
}

/// An undirected graph that keeps parallel edges and finds a node by
/// its name. Its fields are its own: a graph changes through `add_node`
/// and `add_edge` only, so that the table always agrees with the nodes.
pub struct HashBackedUnGraphWithParallelEdges {
    /// The nodes and the edges.
    graph: UnGraph<String, String>,
    /// The index of each node, by its name.
    nodes: StringHashMap<usize>,
}

impl View for HashBackedUnGraphWithParallelEdges {
    type V = GraphView;

    closed spec fn view(&self) -> GraphView {
        graph_view(self.graph)
    }
}

impl HashBackedUnGraphWithParallelEdges {
    /// The invariant: the graph is well formed and within the limits of
    /// its 32-bit indices, it grew by additions only, and the table
    /// holds each node's name with its index and nothing else.
    pub closed spec fn wf(&self) -> bool {
        &&& self@.well_formed()
        &&& self@.nodes.len() <= u32::MAX
        &&& self@.edges.len() <= u32::MAX
        &&& newest_first(self.graph)
        &&& forall|i: int|
            0 <= i < self@.nodes.len() ==> self.nodes@.contains_key(#[trigger] self@.nodes[i])
                && self.nodes@[self@.nodes[i]] == i
        &&& forall|name: Seq<char>| #[trigger]
            self.nodes@.contains_key(name) ==> self@.nodes.contains(name)
    }

    /// What the invariant says of the contents: no name stands for two
    /// nodes, every edge joins nodes of the graph, and nodes and edges
    /// can be counted in 32 bits.
    pub proof fn lemma_wf(&self)
        requires
            self.wf(),
        ensures
            self@.well_formed(),
            self@.nodes.len() <= u32::MAX,
            self@.edges.len() <= u32::MAX,
    {
    }

    /// The nodes and the edges, to read.
    pub fn graph(&self) -> (g: &UnGraph<String, String>)
        ensures
            graph_view(*g) == self@,
    {
        &self.graph
    }

    /// The empty graph.
    pub fn new() -> (g: Self)
        ensures
            g.wf(),
            g@ == GraphView::empty(),
    {
        let g = Self { graph: store_new(), nodes: StringHashMap::new() };
        assert(g@.nodes =~= Seq::empty());
        assert(g@.edges =~= Seq::empty());
        g
    }

    /// The number of entities.
    pub fn node_count(&self) -> (n: usize)
        ensures
            n == self@.nodes.len(),
    {
        store_node_count(&self.graph)
    }

    /// The number of relations.
    pub fn edge_count(&self) -> (n: usize)
        ensures
            n == self@.edges.len(),
    {
        store_edge_count(&self.graph)
    }

    /// The index of the node called `node`, if there is one.
    fn find(&self, node: &str) -> (found: Option<usize>)
        requires
            self.wf(),
        ensures
            match found {
                Some(i) => i < self@.nodes.len() && self@.nodes[i as int] == node@ && self@.position(node@) == i,
                None => !self@.nodes.contains(node@),
            },
    {
        match self.nodes.get(node) {
            Some(i) => {
                proof {
                    let j = choose|j: int| 0 <= j < self@.nodes.len() && self@.nodes[j] == node@;
                    lemma_position(self@, j);
                }
                Some(*i)
            },
            None => None,
        }
    }

    /// Makes sure that a node called `node` exists, and returns its
    /// index. A name that the graph knows gets no second node.
    pub fn add_node(&mut self, node: &String) -> (index: usize)
        requires
            old(self).wf(),
            old(self)@.with_node(node@).nodes.len() <= u32::MAX,
        ensures
            final(self).wf(),
            final(self)@ == old(self)@.with_node(node@),
            index == final(self)@.position(node@),
            index < final(self)@.nodes.len(),
    {
        proof {
            lemma_with_node(self@, node@);
        }
        match self.find(node.as_str()) {
            Some(i) => i,
            None => {
                let i = store_add_node(&mut self.graph, node);
                self.nodes.insert(node.clone(), i);
                proof {
                    let v = old(self)@;
                    assert(self@.nodes == v.nodes.push(node@));
                    assert forall|name: Seq<char>| #[trigger] self.nodes@.contains_key(name) implies self@.nodes.contains(name) by {
                        if name != node@ {
                            assert(old(self).nodes@.contains_key(name));
                        }
                    }
                    assert forall|k: int| 0 <= k < self@.nodes.len() implies self.nodes@.contains_key(#[trigger] self@.nodes[k])
                        && self.nodes@[self@.nodes[k]] == k by {
                        if k < v.nodes.len() {
                            assert(self@.nodes[k] == v.nodes[k]);
                            assert(v.nodes.contains(v.nodes[k]));
                        }
                    }
                }
                i
            },
        }
    }

    /// Adds one edge with the label `edge` between the nodes called
    /// `first` and `second`, which come to exist if they did not. Edges
    /// that are there stay; the two names may be one.
    pub fn add_edge(&mut self, first: &String, second: &String, edge: &String)
        requires
            old(self).wf(),
            old(self)@.with_edge(first@, second@, edge@).nodes.len() <= u32::MAX,
            old(self)@.edges.len() < u32::MAX,
        ensures
            final(self).wf(),
            final(self)@ == old(self)@.with_edge(first@, second@, edge@),
    {
        proof {
            lemma_with_node(self@, first@);
            lemma_with_node(self@.with_node(first@), second@);
            lemma_with_edge(self@, first@, second@, edge@);
        }
        let a = self.add_node(first);
        let b = self.add_node(second);
        let ghost mid = self@;
        proof {
            let j = choose|j: int| 0 <= j < mid.nodes.len() && mid.nodes[j] == first@;
            lemma_position(mid, j);
        }
        store_add_edge(&mut self.graph, a, b, edge);
        proof {
            assert(self@.edges == mid.edges.push((a as int, b as int, edge@)));
            assert(self@ == old(self)@.with_edge(first@, second@, edge@));
        }
    }

    /// Adds a relation between `first` and `second` for each of
    /// `labels`, in their order. The graph stays within the node names
    /// of `source` and under `room` edges.
    fn add_edges(&mut self, first: &String, second: &String, labels: &Vec<String>, Ghost(source): Ghost<GraphView>, Ghost(room): Ghost<int>)
        requires
            old(self).wf(),
            source.nodes.len() <= u32::MAX,
            source.nodes.contains(first@),
            source.nodes.contains(second@),
            forall|i: int| 0 <= i < old(self)@.nodes.len() ==> source.nodes.contains(#[trigger] old(self)@.nodes[i]),
            old(self)@.edges.len() + labels@.len() <= room <= u32::MAX,
        ensures
            final(self).wf(),
            final(self)@ == old(self)@.with_edges(first@, second@, labels@.map_values(|l: String| l@)),
            forall|i: int| 0 <= i < final(self)@.nodes.len() ==> source.nodes.contains(#[trigger] final(self)@.nodes[i]),
    {
        let ghost all = labels@.map_values(|l: String| l@);
        let mut j: usize = 0;
        while j < labels.len()
            invariant
                j <= labels@.len(),
                all == labels@.map_values(|l: String| l@),
                self.wf(),
                source.nodes.len() <= u32::MAX,
                source.nodes.contains(first@),
                source.nodes.contains(second@),
                forall|i: int| 0 <= i < self@.nodes.len() ==> source.nodes.contains(#[trigger] self@.nodes[i]),
                self@ == old(self)@.with_edges(first@, second@, all.take(j as int)),
                self@.edges.len() == old(self)@.edges.len() + j,
                old(self)@.edges.len() + labels@.len() <= room <= u32::MAX,
            decreases labels@.len() - j,
        {
            proof {
                let next = self@.with_edge(first@, second@, labels@[j as int]@);
                lemma_with_edge(self@, first@, second@, labels@[j as int]@);
                assert forall|i: int| 0 <= i < next.nodes.len() implies source.nodes.contains(#[trigger] next.nodes[i]) by {
                    assert(next.nodes.contains(next.nodes[i]));
                    if self@.nodes.contains(next.nodes[i]) {
                        let k = choose|k: int| 0 <= k < self@.nodes.len() && self@.nodes[k] == next.nodes[i];
                        assert(source.nodes.contains(self@.nodes[k]));
                    }
                }
                lemma_names_within(next.nodes, source.nodes);
                assert(all.take(j as int + 1).drop_last() =~= all.take(j as int));
                assert(all.take(j as int + 1).last() == labels@[j as int]@);
            }
            self.add_edge(first, second, &labels[j]);
            j += 1;
        }
        proof {
            assert(all.take(j as int) =~= all);
        }
    }

    /// The neighbourhood of the entity called `node`: a new graph of
    /// that entity, the entities that an edge joins to it, and the
    /// edges between it and each of them. Parallel edges stay apart;
    /// an entity met a second time adds nothing. Without such an entity
    /// the new graph is empty.
    pub fn neighbors(&self, node: &String) -> (sub: Self)
        requires
            self.wf(),
        ensures
            sub.wf(),
            sub@ == neighborhood(self@, node@),
            !self@.nodes.contains(node@) ==> sub@ == GraphView::empty(),
    {
        let mut sub = Self::new();
        if let Some(a) = self.find(node.as_str()) {
            let center = store_node_weight(&self.graph, a);
            let met = store_neighbors(&self.graph, a);
            let ghost adj = adjacent(self@.edges, a as int);
            assert(adj =~= met@.map_values(|n: usize| n as int));
            let mut i: usize = 0;
            while i < met.len()
                invariant
                    i <= met@.len(),
                    self.wf(),
                    sub.wf(),
                    a < self@.nodes.len(),
                    center@ == self@.nodes[a as int],
                    adj == met@.map_values(|n: usize| n as int),
                    forall|k: int| 0 <= k < met@.len() ==> #[trigger] met@[k] < self@.nodes.len(),
                    sub@ == spotlight(self@, a as int, adj.take(i as int)),
                decreases met@.len() - i,
            {
                let n = met[i];
                let far = store_node_weight(&self.graph, n);
                proof {
                    assert(adj.take(i as int + 1).drop_last() =~= adj.take(i as int));
                    assert(adj.take(i as int + 1).last() == n as int);
                }
                if sub.find(far.as_str()).is_none() {
                    let labels = store_edges_connecting(&self.graph, a, n);
                    proof {
                        let between = connecting(self@.edges, a as int, n as int);
                        assert(labels@.map_values(|l: String| l@) =~= between);
                        lemma_spotlight_star(self@, a as int, adj.take(i as int));
                        lemma_spotlight_star(self@, a as int, adj.take(i as int + 1));
                        lemma_with_edges(sub@, center@, far@, between);
                        assert(self@.nodes.contains(self@.nodes[a as int]));
                        assert(self@.nodes.contains(self@.nodes[n as int]));
                        assert forall|k: int| 0 <= k < sub@.nodes.len() implies self@.nodes.contains(#[trigger] sub@.nodes[k]) by {
                            assert(sub@.nodes.contains(sub@.nodes[k]));
                        }
                    }
                    sub.add_edges(center, far, &labels, Ghost(self@), Ghost(self@.edges.len() as int));
                }
                i += 1;
            }
            proof {
                assert(adj.take(i as int) =~= adj);
            }
        }
        sub
    }
}

/// A graph that can be written as diagram text.
pub trait GraphAsCode {
    /// What the graph holds.
    spec fn contents(&self) -> GraphView;

    /// The graph as a graph description.
    fn to_graphviz(&self) -> (text: String)
        ensures
            text@ == graphviz_text(self.contents()),
    ;

    /// The graph as a left-to-right flowchart. Entities without an edge
    /// are left out: the text is written edge by edge.
    fn to_mermaid(&self) -> (text: String)
        ensures
            text@ == mermaid_text(self.contents()),
    ;
}

impl GraphAsCode for UnGraph<String, String> {
    open spec fn contents(&self) -> GraphView {
        graph_view(*self)
    }

    fn to_graphviz(&self) -> (text: String) {
        let edges = store_edges(self);
        let ghost v = graph_view(*self);
        let mut text = String::from_str("graph {\n");
        let mut k: usize = 0;
        while k < edges.len()
            invariant
                k <= edges@.len(),
                v == graph_view(*self),
                edges@.len() == v.edges.len(),
                forall|i: int|
                    0 <= i < edges@.len() ==> {
                        &&& (#[trigger] edges@[i]).0 == v.edges[i].0
                        &&& edges@[i].1 == v.edges[i].1
                        &&& edges@[i].2@ == v.edges[i].2
                        &&& edges@[i].0 < v.nodes.len()
                        &&& edges@[i].1 < v.nodes.len()
                    },
                text@ == "graph {\n"@ + graphviz_lines(v, k as int),
            decreases edges@.len() - k,
        {
            let first = store_node_weight(self, edges[k].0);
            let second = store_node_weight(self, edges[k].1);
            let ghost before = text@;
            text.append("\"");
            text.append(first.as_str());
            text.append("\" -- \"");
            text.append(second.as_str());
            text.append("\" [label=\"");
            text.append(edges[k].2.as_str());
            text.append("\"]\n");
            proof {
                assert(text@ =~= before + graphviz_line(v, k as int));
                assert(text@ =~= "graph {\n"@ + graphviz_lines(v, k as int + 1));
            }
            k += 1;
        }
        text.append("}\n");
        text
    }

    fn to_mermaid(&self) -> (text: String) {
        let edges = store_edges(self);
        let ghost v = graph_view(*self);
        let mut output = String::new();
        let mut k: usize = 0;
        while k < edges.len()
            invariant
                k <= edges@.len(),
                v == graph_view(*self),
                edges@.len() == v.edges.len(),
                forall|i: int|
                    0 <= i < edges@.len() ==> {
                        &&& (#[trigger] edges@[i]).0 == v.edges[i].0
                        &&& edges@[i].1 == v.edges[i].1
                        &&& edges@[i].2@ == v.edges[i].2
                        &&& edges@[i].0 < v.nodes.len()
                        &&& edges@[i].1 < v.nodes.len()
                    },
                output@ == mermaid_lines(v, k as int),
            decreases edges@.len() - k,
        {
            let first = store_node_weight(self, edges[k].0);
            let second = store_node_weight(self, edges[k].1);
            let swap = str_less(second.as_str(), first.as_str());
            let ghost before = output@;
            output.append(if swap { second.as_str() } else { first.as_str() });
            output.append(" ---|");
            output.append(edges[k].2.as_str());
            output.append("| ");
            output.append(if swap { first.as_str() } else { second.as_str() });
            output.append("\n");
            proof {
                assert(output@ =~= before + mermaid_line(v, k as int));
            }
            k += 1;
        }
        let mut text = String::from_str("graph LR\n");
        text.append(output.as_str());
        text
    }
}

} // verus!
