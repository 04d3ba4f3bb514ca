use bundle_diagram::petgraph_wrappers::{GraphAsCode, HashBackedUnGraphWithParallelEdges};

fn link(g: &mut HashBackedUnGraphWithParallelEdges, a: &str, b: &str, label: &str) {
    g.add_edge(&a.to_string(), &b.to_string(), &label.to_string());
}

fn names(g: &HashBackedUnGraphWithParallelEdges) -> Vec<String> {
    g.graph().node_weights().cloned().collect()
}

#[test]
fn test_neighbors() {
    let mut g = HashBackedUnGraphWithParallelEdges::new();
    g.add_node(&"Yo".to_string());
    g.add_edge(
        &String::from("A"),
        &String::from("B1"),
        &String::from("A-B1 first"),
    );
    g.add_edge(
        &String::from("A"),
        &String::from("B1"),
        &String::from("A-B1 second"),
    );
    g.add_edge(
        &String::from("A"),
        &String::from("B2"),
        &String::from("A-B2"),
    );

    // Create the expected neighbors subgraph
    let mut h = HashBackedUnGraphWithParallelEdges::new();
    h.add_edge(
        &String::from("A"),
        &String::from("B2"),
        &String::from("A-B2"),
    );
    h.add_edge(
        &String::from("B1"),
        &String::from("A"),
        &String::from("A-B1 second"),
    );
    h.add_edge(
        &String::from("B1"),
        &String::from("A"),
        &String::from("A-B1 first"),
    );
    assert!(g.neighbors(&String::from("A")) == h);
}

#[test]
fn new_graph_is_empty() {
    let g = HashBackedUnGraphWithParallelEdges::new();
    assert_eq!(g.graph().node_count(), 0);
    assert_eq!(g.graph().edge_count(), 0);
}

#[test]
fn add_node_is_idempotent() {
    let mut g = HashBackedUnGraphWithParallelEdges::new();
    assert_eq!(g.add_node(&"a".to_string()), 0);
    assert_eq!(g.add_node(&"b".to_string()), 1);
    assert_eq!(g.add_node(&"a".to_string()), 0);
    assert_eq!(g.add_node(&"b".to_string()), 1);
    assert_eq!(names(&g), vec!["a".to_string(), "b".to_string()]);
    assert_eq!(g.graph().edge_count(), 0);
}

#[test]
fn node_count_is_the_number_of_distinct_names() {
    let mut g = HashBackedUnGraphWithParallelEdges::new();
    link(&mut g, "a", "b", "1");
    link(&mut g, "b", "a", "2");
    link(&mut g, "a", "c", "3");
    link(&mut g, "c", "c", "4");
    link(&mut g, "a", "b", "1");
    assert_eq!(g.node_count(), 3);
    assert_eq!(g.edge_count(), 5);
    assert_eq!(g.graph().node_count(), 3);
    assert_eq!(g.graph().edge_count(), 5);
    assert_eq!(names(&g), vec!["a".to_string(), "b".to_string(), "c".to_string()]);
}

#[test]
fn add_edge_keeps_parallel_edges_apart() {
    let mut g = HashBackedUnGraphWithParallelEdges::new();
    link(&mut g, "a", "b", "same");
    link(&mut g, "a", "b", "same");
    assert_eq!(g.graph().node_count(), 2);
    assert_eq!(g.graph().edge_count(), 2);
    assert_eq!(g.graph().to_mermaid(), "graph LR\na ---|same| b\na ---|same| b\n");
}

#[test]
fn add_edge_allows_a_loop() {
    let mut g = HashBackedUnGraphWithParallelEdges::new();
    link(&mut g, "a", "a", "self");
    assert_eq!(g.graph().node_count(), 1);
    assert_eq!(g.graph().edge_count(), 1);
    assert_eq!(g.graph().to_mermaid(), "graph LR\na ---|self| a\n");
    assert_eq!(g.graph().to_graphviz(), "graph {\n\"a\" -- \"a\" [label=\"self\"]\n}\n");
}

#[test]
fn neighbors_of_three_parallel_edges() {
    let mut g = HashBackedUnGraphWithParallelEdges::new();
    link(&mut g, "x", "y", "one");
    link(&mut g, "x", "y", "two");
    link(&mut g, "y", "x", "three");
    let near = g.neighbors(&"x".to_string());
    assert_eq!(near.node_count(), 2);
    assert_eq!(near.edge_count(), 3);
    assert_eq!(near.graph().to_mermaid(), "graph LR\nx ---|two| y\nx ---|one| y\nx ---|three| y\n");
}

#[test]
fn neighbors_of_an_absent_entity() {
    let mut g = HashBackedUnGraphWithParallelEdges::new();
    link(&mut g, "a", "b", "l");
    let near = g.neighbors(&"nobody".to_string());
    assert_eq!(near.node_count(), 0);
    assert_eq!(near.edge_count(), 0);
    let empty = HashBackedUnGraphWithParallelEdges::new().neighbors(&"a".to_string());
    assert_eq!(empty.graph().node_count(), 0);
    assert_eq!(empty.graph().edge_count(), 0);
}

#[test]
fn neighbors_of_an_entity_without_edges() {
    let mut g = HashBackedUnGraphWithParallelEdges::new();
    g.add_node(&"alone".to_string());
    link(&mut g, "a", "b", "l");
    let near = g.neighbors(&"alone".to_string());
    assert_eq!(near.graph().node_count(), 0);
    assert_eq!(near.graph().edge_count(), 0);
}

#[test]
fn neighbors_leave_out_other_edges() {
    let mut g = HashBackedUnGraphWithParallelEdges::new();
    link(&mut g, "a", "b", "ab");
    link(&mut g, "b", "c", "bc");
    link(&mut g, "c", "d", "cd");
    let near = g.neighbors(&"b".to_string());
    assert_eq!(names(&near), vec!["b".to_string(), "c".to_string(), "a".to_string()]);
    assert_eq!(near.graph().to_graphviz(), "graph {\n\"b\" -- \"c\" [label=\"bc\"]\n\"b\" -- \"a\" [label=\"ab\"]\n}\n");
}

#[test]
fn neighbors_walk_outgoing_edges_before_incoming_ones() {
    let mut g = HashBackedUnGraphWithParallelEdges::new();
    link(&mut g, "a", "x", "e0");
    link(&mut g, "y", "a", "e1");
    link(&mut g, "a", "z", "e2");
    link(&mut g, "w", "a", "e3");
    let near = g.neighbors(&"a".to_string());
    assert_eq!(
        near.graph().to_graphviz(),
        "graph {\n\
         \"a\" -- \"z\" [label=\"e2\"]\n\
         \"a\" -- \"x\" [label=\"e0\"]\n\
         \"a\" -- \"w\" [label=\"e3\"]\n\
         \"a\" -- \"y\" [label=\"e1\"]\n\
         }\n"
    );
}

#[test]
fn neighbors_gather_both_directions_of_a_pair_at_once() {
    let mut g = HashBackedUnGraphWithParallelEdges::new();
    link(&mut g, "b", "a", "e0");
    link(&mut g, "a", "b", "e1");
    link(&mut g, "a", "c", "e2");
    link(&mut g, "b", "a", "e3");
    link(&mut g, "a", "b", "e4");
    let near = g.neighbors(&"a".to_string());
    assert_eq!(
        near.graph().to_graphviz(),
        "graph {\n\
         \"a\" -- \"b\" [label=\"e4\"]\n\
         \"a\" -- \"b\" [label=\"e1\"]\n\
         \"a\" -- \"b\" [label=\"e3\"]\n\
         \"a\" -- \"b\" [label=\"e0\"]\n\
         \"a\" -- \"c\" [label=\"e2\"]\n\
         }\n"
    );
}

#[test]
fn neighbors_keep_a_loop_met_first() {
    let mut g = HashBackedUnGraphWithParallelEdges::new();
    link(&mut g, "a", "b", "ab");
    link(&mut g, "a", "a", "loop");
    let near = g.neighbors(&"a".to_string());
    assert_eq!(near.graph().node_count(), 2);
    assert_eq!(near.graph().to_mermaid(), "graph LR\na ---|loop| a\na ---|ab| b\n");
}

#[test]
fn neighbors_skip_a_loop_met_after_another_entity() {
    let mut g = HashBackedUnGraphWithParallelEdges::new();
    link(&mut g, "a", "a", "loop");
    link(&mut g, "a", "b", "ab");
    let near = g.neighbors(&"a".to_string());
    assert_eq!(near.graph().node_count(), 2);
    assert_eq!(near.graph().to_mermaid(), "graph LR\na ---|ab| b\n");
}

#[test]
fn flowchart_puts_the_smaller_name_first() {
    let mut g = HashBackedUnGraphWithParallelEdges::new();
    link(&mut g, "b", "a", "l");
    link(&mut g, "a", "b", "m");
    link(&mut g, "ab", "a", "n");
    assert_eq!(g.graph().to_mermaid(), "graph LR\na ---|l| b\na ---|m| b\na ---|n| ab\n");
}

#[test]
fn flowchart_leaves_out_entities_without_edges() {
    let mut g = HashBackedUnGraphWithParallelEdges::new();
    g.add_node(&"alone".to_string());
    link(&mut g, "a", "b", "l");
    assert_eq!(g.graph().to_mermaid(), "graph LR\na ---|l| b\n");
}

#[test]
fn graph_description_keeps_the_ends_in_their_order() {
    let mut g = HashBackedUnGraphWithParallelEdges::new();
    link(&mut g, "b node", "a", "l: 1");
    assert_eq!(g.graph().to_graphviz(), "graph {\n\"b node\" -- \"a\" [label=\"l: 1\"]\n}\n");
}

#[test]
fn graphs_are_equal_by_their_flowcharts() {
    let mut g = HashBackedUnGraphWithParallelEdges::new();
    link(&mut g, "a", "b", "l");
    let mut h = HashBackedUnGraphWithParallelEdges::new();
    h.add_node(&"other".to_string());
    link(&mut h, "b", "a", "l");
    assert!(g == h);
    link(&mut h, "b", "a", "l");
    assert!(g != h);
}
