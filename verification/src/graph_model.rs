//! The mathematical model of a relationship graph: node names by index,
//! and edges as triples of two node indices and a label, in the order in
//! which they were added.
use vstd::prelude::*;
use vstd::seq_lib::seq_to_set_is_finite;
use vstd::set_lib::lemma_len_subset;
use crate::text::{lemma_lex_trichotomy, lex_max, lex_min};

verus! {

/// What a graph holds.
pub struct GraphView {
    /// The entity names, by node index.
    pub nodes: Seq<Seq<char>>,
    /// The edges, by edge index: source, target, label.
    pub edges: Seq<(int, int, Seq<char>)>,
}

impl GraphView {
    /// The graph without nodes and edges.
    pub open spec fn empty() -> GraphView {
        GraphView { nodes: Seq::empty(), edges: Seq::empty() }
    }

    /// No name stands for two nodes, and every edge joins nodes of the
    /// graph.
    pub open spec fn well_formed(self) -> bool {
        &&& self.nodes.no_duplicates()
        &&& forall|k: int|
            0 <= k < self.edges.len() ==> {
                &&& 0 <= (#[trigger] self.edges[k]).0 < self.nodes.len()
                &&& 0 <= self.edges[k].1 < self.nodes.len()
            }
    }

    /// The index of the node called `name`, where there is one.
    pub open spec fn position(self, name: Seq<char>) -> int {
        self.nodes.index_of(name)
    }

    /// The graph with a node called `name`: the graph itself where it
    /// has one, else the graph with one more node.
    pub open spec fn with_node(self, name: Seq<char>) -> GraphView {
        if self.nodes.contains(name) {
            self
        } else {
            GraphView { nodes: self.nodes.push(name), edges: self.edges }
        }
    }

    /// The graph after one more relation: nodes called `a` and `b`
    /// exist, and a new last edge joins them.
    pub open spec fn with_edge(self, a: Seq<char>, b: Seq<char>, label: Seq<char>) -> GraphView {
        let g = self.with_node(a).with_node(b);
        GraphView { nodes: g.nodes, edges: g.edges.push((g.position(a), g.position(b), label)) }
    }

    /// The graph after one more relation between `a` and `b` for each
    /// of `labels`, in their order.
    pub open spec fn with_edges(self, a: Seq<char>, b: Seq<char>, labels: Seq<Seq<char>>) -> GraphView
        decreases labels.len(),
    {
        if labels.len() == 0 {
            self
        } else {
            self.with_edges(a, b, labels.drop_last()).with_edge(a, b, labels.last())
        }
    }
}

/// In a graph without a name twice, the position of a node's name is
/// the node's index.
pub proof fn lemma_position(v: GraphView, i: int)
    requires
        v.nodes.no_duplicates(),
        0 <= i < v.nodes.len(),
    ensures
        v.position(v.nodes[i]) == i,
        v.nodes.contains(v.nodes[i]),
{
    let j = v.position(v.nodes[i]);
    assert(0 <= j < v.nodes.len() && v.nodes[j] == v.nodes[i]);
}

/// Adding a node keeps a graph well formed, keeps the nodes it had at
/// their indices, and puts the name at its position.
pub proof fn lemma_with_node(v: GraphView, name: Seq<char>)
    requires
        v.well_formed(),
    ensures
        v.with_node(name).well_formed(),
        v.with_node(name).nodes.contains(name),
        v.with_node(name).edges == v.edges,
        v.nodes.len() <= v.with_node(name).nodes.len() <= v.nodes.len() + 1,
        forall|i: int| 0 <= i < v.nodes.len() ==> v.with_node(name).nodes[i] == v.nodes[i],
        forall|n: Seq<char>| #[trigger] v.with_node(name).nodes.contains(n) <==> (v.nodes.contains(n) || n == name),
        !v.nodes.contains(name) ==> v.with_node(name).position(name) == v.nodes.len(),
{
    let w = v.with_node(name);
    if !v.nodes.contains(name) {
        assert(w.nodes[v.nodes.len() as int] == name);
        assert(w.nodes.no_duplicates()) by {
            assert forall|i: int, j: int| 0 <= i < w.nodes.len() && 0 <= j < w.nodes.len() && i != j implies w.nodes[i] != w.nodes[j] by {
                if i < v.nodes.len() {
                    assert(v.nodes.contains(v.nodes[i]));
                }
                if j < v.nodes.len() {
                    assert(v.nodes.contains(v.nodes[j]));
                }
            }
        }
        lemma_position(w, v.nodes.len() as int);
        assert forall|n: Seq<char>| w.nodes.contains(n) <==> (v.nodes.contains(n) || n == name) by {
            if w.nodes.contains(n) {
                let i = choose|i: int| 0 <= i < w.nodes.len() && w.nodes[i] == n;
                if i < v.nodes.len() {
                    assert(v.nodes[i] == n);
                }
            }
            if v.nodes.contains(n) {
                let i = choose|i: int| 0 <= i < v.nodes.len() && v.nodes[i] == n;
                assert(w.nodes[i] == n);
            }
        }
    }
}

/// A name that the graph holds gets no second node: adding it again
/// changes nothing.
pub proof fn lemma_with_node_idempotent(v: GraphView, name: Seq<char>)
    requires
        v.well_formed(),
    ensures
        v.with_node(name).with_node(name) == v.with_node(name),
{
    lemma_with_node(v, name);
}

/// Adding a relation keeps a graph well formed. The nodes and edges it
/// had stay where they were; at most two nodes are new, and the names
/// are those it had and those of the two ends; one edge is new, the
/// last, and it joins the nodes called `a` and `b`.
pub proof fn lemma_with_edge(v: GraphView, a: Seq<char>, b: Seq<char>, label: Seq<char>)
    requires
        v.well_formed(),
    ensures
        v.with_edge(a, b, label).well_formed(),
        v.with_edge(a, b, label).nodes == v.with_node(a).with_node(b).nodes,
        v.nodes.len() <= v.with_edge(a, b, label).nodes.len() <= v.nodes.len() + 2,
        v.with_edge(a, b, label).edges.len() == v.edges.len() + 1,
        forall|i: int| 0 <= i < v.nodes.len() ==> v.with_edge(a, b, label).nodes[i] == v.nodes[i],
        forall|k: int| 0 <= k < v.edges.len() ==> v.with_edge(a, b, label).edges[k] == v.edges[k],
        v.with_edge(a, b, label).nodes[v.with_edge(a, b, label).edges.last().0] == a,
        v.with_edge(a, b, label).nodes[v.with_edge(a, b, label).edges.last().1] == b,
        v.with_edge(a, b, label).edges.last().2 == label,
        forall|n: Seq<char>| #[trigger] v.with_edge(a, b, label).nodes.contains(n) <==> (v.nodes.contains(n) || n == a || n == b),
{
    let v1 = v.with_node(a);
    lemma_with_node(v, a);
    let v2 = v1.with_node(b);
    lemma_with_node(v1, b);
    let w = v.with_edge(a, b, label);
    let ia = v2.position(a);
    let ib = v2.position(b);
    assert(v2.nodes.contains(a));
    assert(v2.nodes.contains(b));
    assert(0 <= ia < v2.nodes.len());
    assert(0 <= ib < v2.nodes.len());
    assert forall|k: int| 0 <= k < w.edges.len() implies 0 <= (#[trigger] w.edges[k]).0 < w.nodes.len() && 0 <= w.edges[k].1 < w.nodes.len() by {
        if k < v.edges.len() {
            assert(w.edges[k] == v.edges[k]);
        }
    }
}

/// The graph built from nothing by one relation after the other, each
/// given as two entity names and a label.
pub open spec fn build(relations: Seq<(Seq<char>, Seq<char>, Seq<char>)>) -> GraphView
    decreases relations.len(),
{
    if relations.len() == 0 {
        GraphView::empty()
    } else {
        let last = relations.last();
        build(relations.drop_last()).with_edge(last.0, last.1, last.2)
    }
}

/// The entity names that the relations speak of.
pub open spec fn names_of(relations: Seq<(Seq<char>, Seq<char>, Seq<char>)>) -> Set<Seq<char>> {
    Set::new(
        |name: Seq<char>|
            exists|i: int|
                0 <= i < relations.len() && ((#[trigger] relations[i]).0 == name || relations[i].1 == name),
    )
}

/// However often the relations repeat a name, the graph built from them
/// has one node for each name they speak of and one edge for each
/// relation.
pub proof fn lemma_build_counts(relations: Seq<(Seq<char>, Seq<char>, Seq<char>)>)
    ensures
        build(relations).well_formed(),
        build(relations).nodes.to_set() == names_of(relations),
        build(relations).nodes.len() == names_of(relations).len(),
        build(relations).edges.len() == relations.len(),
    decreases relations.len(),
{
    let g = build(relations);
    if relations.len() == 0 {
        assert(g.nodes.to_set() =~= names_of(relations));
    } else {
        let rest = relations.drop_last();
        let last = relations.last();
        lemma_build_counts(rest);
        lemma_with_edge(build(rest), last.0, last.1, last.2);
        let n = relations.len() - 1;
        assert(relations[n] == last);
        assert(g == build(rest).with_edge(last.0, last.1, last.2));
        assert forall|name: Seq<char>| g.nodes.to_set().contains(name) <==> names_of(relations).contains(name) by {
            if names_of(relations).contains(name) {
                let i = choose|i: int| 0 <= i < relations.len() && ((#[trigger] relations[i]).0 == name || relations[i].1 == name);
                if i < rest.len() {
                    assert(rest[i] == relations[i]);
                    assert(names_of(rest).contains(name));
                    assert(build(rest).nodes.to_set().contains(name));
                    assert(build(rest).nodes.contains(name));
                }
                assert(g.nodes.contains(name));
            }
            if g.nodes.to_set().contains(name) {
                assert(g.nodes.contains(name));
                if build(rest).nodes.contains(name) {
                    assert(build(rest).nodes.to_set().contains(name));
                    assert(names_of(rest).contains(name));
                    let i = choose|i: int| 0 <= i < rest.len() && ((#[trigger] rest[i]).0 == name || rest[i].1 == name);
                    assert(relations[i] == rest[i]);
                    assert(relations[i].0 == name || relations[i].1 == name);
                } else {
                    assert(relations[n].0 == name || relations[n].1 == name);
                }
                assert(names_of(relations).contains(name));
            }
        }
        assert(g.nodes.to_set() =~= names_of(relations));
    }
    g.nodes.unique_seq_to_set();
}

/// The far ends of the edges that start at node `a`, newest edge first.
pub open spec fn targets_from(edges: Seq<(int, int, Seq<char>)>, a: int) -> Seq<int>
    decreases edges.len(),
{
    if edges.len() == 0 {
        Seq::empty()
    } else if edges.last().0 == a {
        seq![edges.last().1] + targets_from(edges.drop_last(), a)
    } else {
        targets_from(edges.drop_last(), a)
    }
}

/// The far ends of the edges that end at node `a` and start elsewhere,
/// newest edge first.
pub open spec fn sources_into(edges: Seq<(int, int, Seq<char>)>, a: int) -> Seq<int>
    decreases edges.len(),
{
    if edges.len() == 0 {
        Seq::empty()
    } else if edges.last().1 == a && edges.last().0 != a {
        seq![edges.last().0] + sources_into(edges.drop_last(), a)
    } else {
        sources_into(edges.drop_last(), a)
    }
}

/// The nodes met along the edges at node `a`, one for each edge: first
/// along the edges that start at `a`, then along those that end there.
pub open spec fn adjacent(edges: Seq<(int, int, Seq<char>)>, a: int) -> Seq<int> {
    targets_from(edges, a) + sources_into(edges, a)
}

/// The labels of the edges from node `a` to node `b`, newest first.
pub open spec fn labels_from(edges: Seq<(int, int, Seq<char>)>, a: int, b: int) -> Seq<Seq<char>>
    decreases edges.len(),
{
    if edges.len() == 0 {
        Seq::empty()
    } else if edges.last().0 == a && edges.last().1 == b {
        seq![edges.last().2] + labels_from(edges.drop_last(), a, b)
    } else {
        labels_from(edges.drop_last(), a, b)
    }
}

/// The labels of the edges between nodes `a` and `b`, in the order in
/// which `adjacent` meets them: those from `a` to `b`, then, unless
/// both are one node, those from `b` to `a`.
pub open spec fn connecting(edges: Seq<(int, int, Seq<char>)>, a: int, b: int) -> Seq<Seq<char>> {
    if a == b {
        labels_from(edges, a, a)
    } else {
        labels_from(edges, a, b) + labels_from(edges, b, a)
    }
}

/// The neighbourhood gathered along `met`, the nodes met at node `a`
/// one after the other: for each whose name the gathered graph does
/// not hold yet, every edge between `a` and it becomes a relation
/// between the two names.
pub open spec fn spotlight(v: GraphView, a: int, met: Seq<int>) -> GraphView
    decreases met.len(),
{
    if met.len() == 0 {
        GraphView::empty()
    } else {
        let before = spotlight(v, a, met.drop_last());
        let n = met.last();
        if before.nodes.contains(v.nodes[n]) {
            before
        } else {
            before.with_edges(v.nodes[a], v.nodes[n], connecting(v.edges, a, n))
        }
    }
}

/// The neighbourhood of the entity called `name`: gathered along the
/// nodes that its edges lead to, and empty where the graph has no such
/// entity.
pub open spec fn neighborhood(v: GraphView, name: Seq<char>) -> GraphView {
    if v.nodes.contains(name) {
        spotlight(v, v.position(name), adjacent(v.edges, v.position(name)))
    } else {
        GraphView::empty()
    }
}

/// A sequence without repetition whose items all occur in another is
/// no longer than the other.
pub proof fn lemma_names_within(small: Seq<Seq<char>>, big: Seq<Seq<char>>)
    requires
        small.no_duplicates(),
        forall|i: int| 0 <= i < small.len() ==> big.contains(#[trigger] small[i]),
    ensures
        small.len() <= big.len(),
{
    small.unique_seq_to_set();
    big.lemma_cardinality_of_set();
    seq_to_set_is_finite(big);
    assert(small.to_set().subset_of(big.to_set())) by {
        assert forall|n: Seq<char>| small.to_set().contains(n) implies big.to_set().contains(n) by {
            let i = choose|i: int| 0 <= i < small.len() && small[i] == n;
            assert(big.contains(small[i]));
        }
    }
    lemma_len_subset(small.to_set(), big.to_set());
}

/// Relations added one after the other add one edge each.
pub proof fn lemma_with_edges(v: GraphView, a: Seq<char>, b: Seq<char>, labels: Seq<Seq<char>>)
    requires
        v.well_formed(),
    ensures
        v.with_edges(a, b, labels).well_formed(),
        v.with_edges(a, b, labels).edges.len() == v.edges.len() + labels.len(),
        forall|n: Seq<char>| #[trigger] v.with_edges(a, b, labels).nodes.contains(n) <==> (v.nodes.contains(n) || (labels.len() > 0 && (n == a || n == b))),
    decreases labels.len(),
{
    if labels.len() > 0 {
        lemma_with_edges(v, a, b, labels.drop_last());
        lemma_with_edge(v.with_edges(a, b, labels.drop_last()), a, b, labels.last());
    }
}

/// The flowchart line of edge `k`: the two entity names, the smaller
/// one first, with the label between them.
pub open spec fn mermaid_line(v: GraphView, k: int) -> Seq<char> {
    let first = v.nodes[v.edges[k].0];
    let second = v.nodes[v.edges[k].1];
    lex_min(first, second) + " ---|"@ + v.edges[k].2 + "| "@ + lex_max(first, second) + "\n"@
}

/// The flowchart line of an edge does not tell which of its ends is
/// the source: the edge turned round gives the same line.
pub proof fn lemma_mermaid_line_undirected(v: GraphView, w: GraphView, k: int)
    requires
        v.nodes == w.nodes,
        w.edges[k] == (v.edges[k].1, v.edges[k].0, v.edges[k].2),
    ensures
        mermaid_line(v, k) == mermaid_line(w, k),
{
    lemma_lex_trichotomy(v.nodes[v.edges[k].0], v.nodes[v.edges[k].1]);
}

/// The flowchart lines of the first `n` edges.
pub open spec fn mermaid_lines(v: GraphView, n: int) -> Seq<char>
    decreases n,
{
    if n <= 0 {
        Seq::empty()
    } else {
        mermaid_lines(v, n - 1) + mermaid_line(v, n - 1)
    }
}

/// The flowchart of a graph: the header of a left-to-right flow, then
/// one line for each edge, in the order of the edges. An entity without
/// an edge does not appear.
pub open spec fn mermaid_text(v: GraphView) -> Seq<char> {
    "graph LR\n"@ + mermaid_lines(v, v.edges.len() as int)
}

/// The graph-description line of edge `k`: the two entity names in
/// quotes, source first, and the label as an attribute.
pub open spec fn graphviz_line(v: GraphView, k: int) -> Seq<char> {
    let first = v.nodes[v.edges[k].0];
    let second = v.nodes[v.edges[k].1];
    "\""@ + first + "\" -- \""@ + second + "\" [label=\""@ + v.edges[k].2 + "\"]\n"@
}

/// The graph-description lines of the first `n` edges.
pub open spec fn graphviz_lines(v: GraphView, n: int) -> Seq<char>
    decreases n,
{
    if n <= 0 {
        Seq::empty()
    } else {
        graphviz_lines(v, n - 1) + graphviz_line(v, n - 1)
    }
}

/// The graph description: an opening line, one line for each edge in
/// the order of the edges, and a closing line.
pub open spec fn graphviz_text(v: GraphView) -> Seq<char> {
    "graph {\n"@ + graphviz_lines(v, v.edges.len() as int) + "}\n"@
}

} // verus!
