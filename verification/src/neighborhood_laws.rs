//! What holds of every neighbourhood: it is a star around its entity,
//! it lies within the graph it was taken from, and, where no edge joins
//! the entity to itself, it holds each edge at the entity once and each
//! neighbour once.
use vstd::prelude::*;
use vstd::seq_lib::seq_to_set_is_finite;
use crate::graph_model::{
    adjacent, connecting, labels_from, lemma_names_within, lemma_position, lemma_with_edges,
    lemma_with_node, neighborhood, sources_into, spotlight, targets_from, GraphView,
};

verus! {

/// Whether edge `e` joins node `a` to a node of `far`.
spec fn joins(e: (int, int, Seq<char>), a: int, far: Set<int>) -> bool {
    (e.0 == a && far.contains(e.1)) || (e.1 == a && e.0 != a && far.contains(e.0))
}

/// The number of edges that join node `a` to a node of `far`.
spec fn count_joining(edges: Seq<(int, int, Seq<char>)>, a: int, far: Set<int>) -> nat
    decreases edges.len(),
{
    if edges.len() == 0 {
        0
    } else if joins(edges.last(), a, far) {
        count_joining(edges.drop_last(), a, far) + 1
    } else {
        count_joining(edges.drop_last(), a, far)
    }
}

/// No more edges join a node to others than there are edges.
proof fn lemma_count_joining_bound(edges: Seq<(int, int, Seq<char>)>, a: int, far: Set<int>)
    ensures
        count_joining(edges, a, far) <= edges.len(),
    decreases edges.len(),
{
    if edges.len() > 0 {
        lemma_count_joining_bound(edges.drop_last(), a, far);
    }
}

/// No edge joins a node to none.
proof fn lemma_count_joining_none(edges: Seq<(int, int, Seq<char>)>, a: int)
    ensures
        count_joining(edges, a, Set::empty()) == 0,
    decreases edges.len(),
{
    if edges.len() > 0 {
        lemma_count_joining_none(edges.drop_last(), a);
    }
}

/// One more far node adds the edges that connect it.
proof fn lemma_count_joining_insert(edges: Seq<(int, int, Seq<char>)>, a: int, far: Set<int>, n: int)
    requires
        !far.contains(n),
    ensures
        count_joining(edges, a, far.insert(n)) == count_joining(edges, a, far) + connecting(edges, a, n).len(),
    decreases edges.len(),
{
    if edges.len() > 0 {
        lemma_count_joining_insert(edges.drop_last(), a, far, n);
    }
}

/// The number of edges that have node `a` at an end.
pub open spec fn edges_at(edges: Seq<(int, int, Seq<char>)>, a: int) -> nat
    decreases edges.len(),
{
    if edges.len() == 0 {
        0
    } else if edges.last().0 == a || edges.last().1 == a {
        edges_at(edges.drop_last(), a) + 1
    } else {
        edges_at(edges.drop_last(), a)
    }
}

/// No edge joins node `a` to itself.
pub open spec fn no_loop_at(edges: Seq<(int, int, Seq<char>)>, a: int) -> bool {
    forall|k: int| 0 <= k < edges.len() ==> !((#[trigger] edges[k]).0 == a && edges[k].1 == a)
}

/// Every edge of `g` starts at node 0, which is called `name`.
pub open spec fn star_around(g: GraphView, name: Seq<char>) -> bool {
    &&& g.nodes.len() > 0 ==> g.nodes[0] == name
    &&& forall|k: int| 0 <= k < g.edges.len() ==> (#[trigger] g.edges[k]).0 == 0
}

proof fn lemma_targets_member(edges: Seq<(int, int, Seq<char>)>, a: int, i: int)
    requires
        0 <= i < targets_from(edges, a).len(),
    ensures
        exists|k: int| 0 <= k < edges.len() && (#[trigger] edges[k]).0 == a && edges[k].1 == targets_from(edges, a)[i],
    decreases edges.len(),
{
    let rest = edges.drop_last();
    let n = edges.len() - 1;
    if edges.last().0 == a && i == 0 {
        assert(edges[n].0 == a && edges[n].1 == targets_from(edges, a)[i]);
    } else {
        let j = if edges.last().0 == a { i - 1 } else { i };
        lemma_targets_member(rest, a, j);
        let k = choose|k: int| 0 <= k < rest.len() && (#[trigger] rest[k]).0 == a && rest[k].1 == targets_from(rest, a)[j];
        assert(edges[k] == rest[k]);
    }
}

proof fn lemma_sources_member(edges: Seq<(int, int, Seq<char>)>, a: int, i: int)
    requires
        0 <= i < sources_into(edges, a).len(),
    ensures
        exists|k: int| 0 <= k < edges.len() && (#[trigger] edges[k]).1 == a && edges[k].0 != a && edges[k].0 == sources_into(edges, a)[i],
    decreases edges.len(),
{
    let rest = edges.drop_last();
    let n = edges.len() - 1;
    let hit = edges.last().1 == a && edges.last().0 != a;
    if hit && i == 0 {
        assert(edges[n].1 == a && edges[n].0 == sources_into(edges, a)[i]);
    } else {
        let j = if hit { i - 1 } else { i };
        lemma_sources_member(rest, a, j);
        let k = choose|k: int| 0 <= k < rest.len() && (#[trigger] rest[k]).1 == a && rest[k].0 != a && rest[k].0 == sources_into(rest, a)[j];
        assert(edges[k] == rest[k]);
    }
}

proof fn lemma_targets_hold(edges: Seq<(int, int, Seq<char>)>, a: int, k: int)
    requires
        0 <= k < edges.len(),
        edges[k].0 == a,
    ensures
        targets_from(edges, a).contains(edges[k].1),
    decreases edges.len(),
{
    let rest = edges.drop_last();
    if k == edges.len() - 1 {
        assert(targets_from(edges, a)[0] == edges[k].1);
    } else {
        lemma_targets_hold(rest, a, k);
        assert(rest[k] == edges[k]);
        let i = choose|i: int| 0 <= i < targets_from(rest, a).len() && targets_from(rest, a)[i] == edges[k].1;
        if edges.last().0 == a {
            assert(targets_from(edges, a)[i + 1] == edges[k].1);
        } else {
            assert(targets_from(edges, a)[i] == edges[k].1);
        }
    }
}

proof fn lemma_sources_hold(edges: Seq<(int, int, Seq<char>)>, a: int, k: int)
    requires
        0 <= k < edges.len(),
        edges[k].1 == a,
        edges[k].0 != a,
    ensures
        sources_into(edges, a).contains(edges[k].0),
    decreases edges.len(),
{
    let rest = edges.drop_last();
    if k == edges.len() - 1 {
        assert(sources_into(edges, a)[0] == edges[k].0);
    } else {
        lemma_sources_hold(rest, a, k);
        assert(rest[k] == edges[k]);
        let i = choose|i: int| 0 <= i < sources_into(rest, a).len() && sources_into(rest, a)[i] == edges[k].0;
        if edges.last().1 == a && edges.last().0 != a {
            assert(sources_into(edges, a)[i + 1] == edges[k].0);
        } else {
            assert(sources_into(edges, a)[i] == edges[k].0);
        }
    }
}

proof fn lemma_labels_nonempty(edges: Seq<(int, int, Seq<char>)>, a: int, b: int, k: int)
    requires
        0 <= k < edges.len(),
        edges[k].0 == a,
        edges[k].1 == b,
    ensures
        labels_from(edges, a, b).len() > 0,
    decreases edges.len(),
{
    if k < edges.len() - 1 {
        assert(edges.drop_last()[k] == edges[k]);
        lemma_labels_nonempty(edges.drop_last(), a, b, k);
    }
}

/// Each node met at `a` is the far end of an edge at `a`, so at least
/// one edge connects the two; it is a node of the graph, and it is not
/// `a` itself unless an edge joins `a` to itself.
pub proof fn lemma_adjacent_member(v: GraphView, a: int, i: int)
    requires
        v.well_formed(),
        0 <= i < adjacent(v.edges, a).len(),
    ensures
        0 <= adjacent(v.edges, a)[i] < v.nodes.len(),
        connecting(v.edges, a, adjacent(v.edges, a)[i]).len() > 0,
        no_loop_at(v.edges, a) ==> adjacent(v.edges, a)[i] != a,
{
    let edges = v.edges;
    let n = adjacent(edges, a)[i];
    if i < targets_from(edges, a).len() {
        lemma_targets_member(edges, a, i);
        let k = choose|k: int| 0 <= k < edges.len() && (#[trigger] edges[k]).0 == a && edges[k].1 == targets_from(edges, a)[i];
        lemma_labels_nonempty(edges, a, n, k);
    } else {
        let j = i - targets_from(edges, a).len();
        lemma_sources_member(edges, a, j);
        let k = choose|k: int| 0 <= k < edges.len() && (#[trigger] edges[k]).1 == a && edges[k].0 != a && edges[k].0 == sources_into(edges, a)[j];
        lemma_labels_nonempty(edges, n, a, k);
    }
}

/// Where `far` holds the far end of every edge at `a`, the edges that
/// join `a` to a node of `far` are all the edges at `a`.
proof fn lemma_count_joining_all(edges: Seq<(int, int, Seq<char>)>, a: int, far: Set<int>)
    requires
        forall|k: int| 0 <= k < edges.len() && (#[trigger] edges[k]).0 == a ==> far.contains(edges[k].1),
        forall|k: int| 0 <= k < edges.len() && (#[trigger] edges[k]).1 == a ==> far.contains(edges[k].0),
    ensures
        count_joining(edges, a, far) == edges_at(edges, a),
    decreases edges.len(),
{
    if edges.len() > 0 {
        let rest = edges.drop_last();
        let n = edges.len() - 1;
        assert forall|k: int| 0 <= k < rest.len() && (#[trigger] rest[k]).0 == a implies far.contains(rest[k].1) by {
            assert(rest[k] == edges[k]);
        }
        assert forall|k: int| 0 <= k < rest.len() && (#[trigger] rest[k]).1 == a implies far.contains(rest[k].0) by {
            assert(rest[k] == edges[k]);
        }
        lemma_count_joining_all(rest, a, far);
        assert(edges[n] == edges.last());
    }
}

/// After at least one relation between `a` and `b`, the nodes are those
/// after the first.
proof fn lemma_with_edges_nodes(v: GraphView, a: Seq<char>, b: Seq<char>, labels: Seq<Seq<char>>)
    requires
        v.well_formed(),
        labels.len() > 0,
    ensures
        v.with_edges(a, b, labels).nodes == v.with_node(a).with_node(b).nodes,
    decreases labels.len(),
{
    let before = v.with_edges(a, b, labels.drop_last());
    lemma_with_edges(v, a, b, labels.drop_last());
    lemma_with_node(v, a);
    lemma_with_node(v.with_node(a), b);
    if labels.len() > 1 {
        lemma_with_edges_nodes(v, a, b, labels.drop_last());
        assert(before.nodes.contains(a));
        assert(before.nodes.contains(b));
    }
}

/// Relations from `a` added to a star around `a` leave a star.
proof fn lemma_with_edges_star(g: GraphView, a: Seq<char>, b: Seq<char>, labels: Seq<Seq<char>>)
    requires
        g.well_formed(),
        star_around(g, a),
    ensures
        star_around(g.with_edges(a, b, labels), a),
    decreases labels.len(),
{
    if labels.len() > 0 {
        let before = g.with_edges(a, b, labels.drop_last());
        lemma_with_edges_star(g, a, b, labels.drop_last());
        lemma_with_edges(g, a, b, labels.drop_last());
        lemma_with_node(before, a);
        let mid = before.with_node(a);
        lemma_with_node(mid, b);
        let end = mid.with_node(b);
        assert(mid.nodes[0] == a);
        assert(end.nodes[0] == a);
        lemma_position(end, 0);
        let after = before.with_edge(a, b, labels.last());
        assert(after.nodes == end.nodes);
        assert forall|k: int| 0 <= k < after.edges.len() implies (#[trigger] after.edges[k]).0 == 0 by {
            if k < before.edges.len() {
                assert(after.edges[k] == before.edges[k]);
            }
        }
    }
}

/// What is gathered along any nodes of the graph is a star around `a`
/// within the graph: its names are names of the graph, and it has no
/// more edges than the graph.
pub proof fn lemma_spotlight_star(v: GraphView, a: int, met: Seq<int>)
    requires
        v.well_formed(),
        0 <= a < v.nodes.len(),
        forall|i: int| 0 <= i < met.len() ==> 0 <= #[trigger] met[i] < v.nodes.len(),
    ensures
        spotlight(v, a, met).well_formed(),
        star_around(spotlight(v, a, met), v.nodes[a]),
        forall|name: Seq<char>| #[trigger] spotlight(v, a, met).nodes.contains(name) ==> v.nodes.contains(name),
        spotlight(v, a, met).edges.len() <= v.edges.len(),
{
    let far = lemma_spotlight_far(v, a, met);
    lemma_count_joining_bound(v.edges, a, far);
}

/// The same, with the nodes whose edges were gathered: the gathered
/// graph holds each of them, and as many edges as join `a` to them.
proof fn lemma_spotlight_far(v: GraphView, a: int, met: Seq<int>) -> (far: Set<int>)
    requires
        v.well_formed(),
        0 <= a < v.nodes.len(),
        forall|i: int| 0 <= i < met.len() ==> 0 <= #[trigger] met[i] < v.nodes.len(),
    ensures
        spotlight(v, a, met).well_formed(),
        star_around(spotlight(v, a, met), v.nodes[a]),
        forall|name: Seq<char>| #[trigger] spotlight(v, a, met).nodes.contains(name) ==> v.nodes.contains(name),
        forall|m: int| #[trigger] far.contains(m) ==> spotlight(v, a, met).nodes.contains(v.nodes[m]),
        spotlight(v, a, met).edges.len() == count_joining(v.edges, a, far),
    decreases met.len(),
{
    if met.len() == 0 {
        lemma_count_joining_none(v.edges, a);
        Set::empty()
    } else {
        let before = spotlight(v, a, met.drop_last());
        let n = met.last();
        let found = lemma_spotlight_far(v, a, met.drop_last());
        assert(v.nodes.contains(v.nodes[a]));
        assert(v.nodes.contains(v.nodes[n]));
        if before.nodes.contains(v.nodes[n]) {
            found
        } else {
            let between = connecting(v.edges, a, n);
            lemma_with_edges(before, v.nodes[a], v.nodes[n], between);
            lemma_with_edges_star(before, v.nodes[a], v.nodes[n], between);
            lemma_count_joining_insert(v.edges, a, found, n);
            if between.len() > 0 {
                found.insert(n)
            } else {
                found
            }
        }
    }
}

/// Where no edge joins `a` to itself, what is gathered along nodes met
/// at `a` holds `a` and each of them once, and each edge that joins `a`
/// to one of them once.
proof fn lemma_spotlight_counts(v: GraphView, a: int, met: Seq<int>)
    requires
        v.well_formed(),
        0 <= a < v.nodes.len(),
        forall|i: int|
            0 <= i < met.len() ==> {
                &&& 0 <= #[trigger] met[i] < v.nodes.len()
                &&& met[i] != a
                &&& connecting(v.edges, a, met[i]).len() > 0
            },
    ensures
        spotlight(v, a, met).well_formed(),
        forall|q: int|
            0 <= q < v.nodes.len() ==> (#[trigger] spotlight(v, a, met).nodes.contains(v.nodes[q]) <==> (met.len() > 0
                && q == a) || met.contains(q)),
        spotlight(v, a, met).edges.len() == count_joining(v.edges, a, met.to_set()),
        spotlight(v, a, met).nodes.len() == if met.len() == 0 { 0 } else { 1 + met.to_set().len() },
    decreases met.len(),
{
    let g = spotlight(v, a, met);
    if met.len() == 0 {
        assert(met.to_set() =~= Set::empty());
        lemma_count_joining_none(v.edges, a);
    } else {
        let shorter = met.drop_last();
        let n = met.last();
        let before = spotlight(v, a, shorter);
        lemma_spotlight_counts(v, a, shorter);
        assert(met =~= shorter.push(n));
        shorter.lemma_push_to_set_commute(n);
        assert(met.to_set() =~= shorter.to_set().insert(n));
        seq_to_set_is_finite(shorter);
        assert forall|q: int| met.contains(q) <==> (shorter.contains(q) || q == n) by {
            if met.contains(q) {
                let i = choose|i: int| 0 <= i < met.len() && met[i] == q;
                if i < shorter.len() {
                    assert(shorter[i] == q);
                }
            }
            if shorter.contains(q) {
                let i = choose|i: int| 0 <= i < shorter.len() && shorter[i] == q;
                assert(met[i] == q);
            }
            if q == n {
                assert(met[met.len() - 1] == q);
            }
        }
        if before.nodes.contains(v.nodes[n]) {
            assert(shorter.contains(n));
            assert(shorter.to_set().contains(n));
            assert(met.to_set() =~= shorter.to_set());
        } else {
            let between = connecting(v.edges, a, n);
            assert(!shorter.contains(n));
            assert(!shorter.to_set().contains(n));
            lemma_with_edges(before, v.nodes[a], v.nodes[n], between);
            lemma_with_edges_nodes(before, v.nodes[a], v.nodes[n], between);
            lemma_count_joining_insert(v.edges, a, shorter.to_set(), n);
            lemma_with_node(before, v.nodes[a]);
            lemma_with_node(before.with_node(v.nodes[a]), v.nodes[n]);
            assert(v.nodes[a] != v.nodes[n]);
            assert forall|q: int| 0 <= q < v.nodes.len() implies (#[trigger] g.nodes.contains(v.nodes[q]) <==> (q == a
                || met.contains(q))) by {
                assert(v.nodes[q] == v.nodes[a] <==> q == a);
                assert(v.nodes[q] == v.nodes[n] <==> q == n);
            }
            if shorter.len() == 0 {
                assert(shorter.to_set() =~= Set::empty());
            } else {
                assert(before.nodes.contains(v.nodes[a]));
            }
        }
    }
}

/// Whether the graph has an edge labelled `label` between the entities
/// called `x` and `y`, in either direction.
pub open spec fn has_edge_between(v: GraphView, x: Seq<char>, y: Seq<char>, label: Seq<char>) -> bool {
    exists|j: int|
        0 <= j < v.edges.len() && (#[trigger] v.edges[j]).2 == label && ((v.nodes[v.edges[j].0] == x
            && v.nodes[v.edges[j].1] == y) || (v.nodes[v.edges[j].0] == y && v.nodes[v.edges[j].1] == x))
}

/// Every edge of `g` starts at an entity called `x` and stands for an
/// edge of `v` with the same label between `x` and the edge's far end.
pub open spec fn edges_taken_from(g: GraphView, v: GraphView, x: Seq<char>) -> bool {
    forall|k: int|
        0 <= k < g.edges.len() ==> has_edge_between(v, x, g.nodes[(#[trigger] g.edges[k]).1], g.edges[k].2)
}

proof fn lemma_labels_member(edges: Seq<(int, int, Seq<char>)>, a: int, b: int, i: int)
    requires
        0 <= i < labels_from(edges, a, b).len(),
    ensures
        exists|k: int|
            0 <= k < edges.len() && (#[trigger] edges[k]).0 == a && edges[k].1 == b && edges[k].2 == labels_from(
                edges,
                a,
                b,
            )[i],
    decreases edges.len(),
{
    let rest = edges.drop_last();
    let n = edges.len() - 1;
    let hit = edges.last().0 == a && edges.last().1 == b;
    if hit && i == 0 {
        assert(edges[n].0 == a && edges[n].1 == b && edges[n].2 == labels_from(edges, a, b)[i]);
    } else {
        let j = if hit { i - 1 } else { i };
        lemma_labels_member(rest, a, b, j);
        let k = choose|k: int|
            0 <= k < rest.len() && (#[trigger] rest[k]).0 == a && rest[k].1 == b && rest[k].2 == labels_from(rest, a, b)[j];
        assert(edges[k] == rest[k]);
    }
}

/// Each label that connects two nodes is the label of an edge between
/// them.
proof fn lemma_connecting_member(v: GraphView, a: int, b: int, i: int)
    requires
        0 <= i < connecting(v.edges, a, b).len(),
    ensures
        has_edge_between(v, v.nodes[a], v.nodes[b], connecting(v.edges, a, b)[i]),
{
    let edges = v.edges;
    if i < labels_from(edges, a, b).len() {
        lemma_labels_member(edges, a, b, i);
        let k = choose|k: int|
            0 <= k < edges.len() && (#[trigger] edges[k]).0 == a && edges[k].1 == b && edges[k].2 == labels_from(edges, a, b)[i];
        assert(v.edges[k].2 == connecting(edges, a, b)[i]);
    } else {
        let j = i - labels_from(edges, a, b).len();
        lemma_labels_member(edges, b, a, j);
        let k = choose|k: int|
            0 <= k < edges.len() && (#[trigger] edges[k]).0 == b && edges[k].1 == a && edges[k].2 == labels_from(edges, b, a)[j];
        assert(v.edges[k].2 == connecting(edges, a, b)[i]);
    }
}

/// Relations between `x` and `y` whose labels are those of edges of `v`
/// between the two, added to a graph whose edges were taken from `v`,
/// leave such a graph.
proof fn lemma_with_edges_taken(g: GraphView, v: GraphView, x: Seq<char>, y: Seq<char>, labels: Seq<Seq<char>>)
    requires
        g.well_formed(),
        edges_taken_from(g, v, x),
        forall|i: int| 0 <= i < labels.len() ==> has_edge_between(v, x, y, #[trigger] labels[i]),
    ensures
        edges_taken_from(g.with_edges(x, y, labels), v, x),
    decreases labels.len(),
{
    if labels.len() > 0 {
        let before = g.with_edges(x, y, labels.drop_last());
        assert forall|i: int| 0 <= i < labels.drop_last().len() implies has_edge_between(
            v,
            x,
            y,
            #[trigger] labels.drop_last()[i],
        ) by {
            assert(labels.drop_last()[i] == labels[i]);
        }
        lemma_with_edges_taken(g, v, x, y, labels.drop_last());
        lemma_with_edges(g, x, y, labels.drop_last());
        lemma_with_node(before, x);
        let mid = before.with_node(x);
        lemma_with_node(mid, y);
        let end = mid.with_node(y);
        let after = before.with_edge(x, y, labels.last());
        assert(after.nodes == end.nodes);
        let py = end.position(y);
        assert(end.nodes.contains(y));
        assert(end.nodes[py] == y);
        assert(has_edge_between(v, x, y, labels[labels.len() - 1]));
        assert forall|k: int| 0 <= k < after.edges.len() implies has_edge_between(
            v,
            x,
            after.nodes[(#[trigger] after.edges[k]).1],
            after.edges[k].2,
        ) by {
            if k < before.edges.len() {
                assert(after.edges[k] == before.edges[k]);
                assert(0 <= before.edges[k].1 < before.nodes.len());
                assert(mid.nodes[before.edges[k].1] == before.nodes[before.edges[k].1]);
                assert(end.nodes[before.edges[k].1] == mid.nodes[before.edges[k].1]);
            } else {
                assert(after.edges[k] == (end.position(x), py, labels.last()));
            }
        }
    }
}

proof fn lemma_spotlight_taken(v: GraphView, a: int, met: Seq<int>)
    requires
        v.well_formed(),
        0 <= a < v.nodes.len(),
        forall|i: int| 0 <= i < met.len() ==> 0 <= #[trigger] met[i] < v.nodes.len(),
    ensures
        edges_taken_from(spotlight(v, a, met), v, v.nodes[a]),
    decreases met.len(),
{
    if met.len() > 0 {
        let before = spotlight(v, a, met.drop_last());
        let n = met.last();
        lemma_spotlight_taken(v, a, met.drop_last());
        lemma_spotlight_star(v, a, met.drop_last());
        if !before.nodes.contains(v.nodes[n]) {
            let between = connecting(v.edges, a, n);
            assert forall|i: int| 0 <= i < between.len() implies has_edge_between(
                v,
                v.nodes[a],
                v.nodes[n],
                #[trigger] between[i],
            ) by {
                lemma_connecting_member(v, a, n, i);
            }
            lemma_with_edges_taken(before, v, v.nodes[a], v.nodes[n], between);
        }
    }
}

/// The neighbourhood of a name that the graph does not hold is empty.
pub proof fn lemma_neighborhood_absent(v: GraphView, name: Seq<char>)
    requires
        !v.nodes.contains(name),
    ensures
        neighborhood(v, name) == GraphView::empty(),
{
}

/// A neighbourhood is a well-formed graph within the graph it was taken
/// from: every name in it is a name of the graph, no name twice, and it
/// has no more edges than the graph. It is a star: its first node is
/// the entity itself, and every edge starts there and stands for an
/// edge of the graph, with the same label, between the entity and the
/// node at its far end.
pub proof fn lemma_neighborhood_star(v: GraphView, name: Seq<char>)
    requires
        v.well_formed(),
    ensures
        neighborhood(v, name).well_formed(),
        star_around(neighborhood(v, name), name),
        forall|other: Seq<char>| #[trigger] neighborhood(v, name).nodes.contains(other) ==> v.nodes.contains(other),
        neighborhood(v, name).edges.len() <= v.edges.len(),
        neighborhood(v, name).nodes.len() <= v.nodes.len(),
        edges_taken_from(neighborhood(v, name), v, name),
{
    if v.nodes.contains(name) {
        let a = v.position(name);
        let met = adjacent(v.edges, a);
        assert forall|i: int| 0 <= i < met.len() implies 0 <= #[trigger] met[i] < v.nodes.len() by {
            lemma_adjacent_member(v, a, i);
        }
        lemma_spotlight_star(v, a, met);
        lemma_spotlight_taken(v, a, met);
        let g = neighborhood(v, name);
        assert forall|i: int| 0 <= i < g.nodes.len() implies v.nodes.contains(#[trigger] g.nodes[i]) by {
            assert(g.nodes.contains(g.nodes[i]));
        }
        lemma_names_within(g.nodes, v.nodes);
    }
}

/// Where no edge joins the entity to itself, its neighbourhood holds
/// every edge that the graph has at the entity, parallel ones each on
/// its own, and beside the entity one node for each of its neighbours,
/// however many edges lead there. An entity without an edge has an
/// empty neighbourhood.
pub proof fn lemma_neighborhood_counts(v: GraphView, name: Seq<char>)
    requires
        v.well_formed(),
        v.nodes.contains(name),
        no_loop_at(v.edges, v.position(name)),
    ensures
        neighborhood(v, name).edges.len() == edges_at(v.edges, v.position(name)),
        neighborhood(v, name).nodes.len() == if edges_at(v.edges, v.position(name)) == 0 {
            0
        } else {
            1 + adjacent(v.edges, v.position(name)).to_set().len()
        },
{
    let a = v.position(name);
    let met = adjacent(v.edges, a);
    assert forall|i: int| 0 <= i < met.len() implies {
        &&& 0 <= #[trigger] met[i] < v.nodes.len()
        &&& met[i] != a
        &&& connecting(v.edges, a, met[i]).len() > 0
    } by {
        lemma_adjacent_member(v, a, i);
    }
    lemma_spotlight_counts(v, a, met);
    assert forall|k: int| 0 <= k < v.edges.len() && (#[trigger] v.edges[k]).0 == a implies met.to_set().contains(v.edges[k].1) by {
        lemma_targets_hold(v.edges, a, k);
        let i = choose|i: int| 0 <= i < targets_from(v.edges, a).len() && targets_from(v.edges, a)[i] == v.edges[k].1;
        assert(met[i] == v.edges[k].1);
    }
    assert forall|k: int| 0 <= k < v.edges.len() && (#[trigger] v.edges[k]).1 == a implies met.to_set().contains(v.edges[k].0) by {
        lemma_sources_hold(v.edges, a, k);
        let i = choose|i: int| 0 <= i < sources_into(v.edges, a).len() && sources_into(v.edges, a)[i] == v.edges[k].0;
        assert(met[targets_from(v.edges, a).len() + i] == v.edges[k].0);
    }
    lemma_count_joining_all(v.edges, a, met.to_set());
    if met.len() == 0 {
        assert(met.to_set() =~= Set::empty());
        lemma_count_joining_none(v.edges, a);
    } else {
        lemma_adjacent_member(v, a, 0);
        lemma_edges_at_positive(v.edges, a, met[0]);
    }
}

/// A node with a connecting edge has an edge.
proof fn lemma_edges_at_positive(edges: Seq<(int, int, Seq<char>)>, a: int, b: int)
    requires
        connecting(edges, a, b).len() > 0,
    ensures
        edges_at(edges, a) > 0,
    decreases edges.len(),
{
    if edges.len() > 0 {
        let last = edges.last();
        if last.0 == a || last.1 == a {
        } else {
            lemma_edges_at_positive(edges.drop_last(), a, b);
        }
    }
}

} // verus!
