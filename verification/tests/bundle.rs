use bundle_diagram::bundle::{AppRel, Bundle, Relation};
use bundle_diagram::errors::Error;
use bundle_diagram::petgraph_wrappers::GraphAsCode;

fn endpoint(app: &str, rel: &str) -> AppRel {
    AppRel { app: app.to_string(), rel: rel.to_string() }
}

fn bundle_of(pairs: &[(&str, &str)]) -> Bundle {
    Bundle {
        relations: pairs.iter().map(|(a, b)| [a.to_string(), b.to_string()]).collect(),
    }
}

#[test]
fn test_from_colon_notation() {
    assert_eq!(
        AppRel::from_colon_notation("app:rel"),
        Ok(AppRel {
            app: "app".to_string(),
            rel: "rel".to_string()
        })
    );
    assert_eq!(
        AppRel::from_colon_notation("app_name:rel_name"),
        Ok(AppRel {
            app: "app_name".to_string(),
            rel: "rel_name".to_string()
        })
    );
    assert_eq!(
        AppRel::from_colon_notation("app-name:rel-name"),
        Ok(AppRel {
            app: "app-name".to_string(),
            rel: "rel-name".to_string()
        })
    );
}

#[test]
fn test_get_relation_label() {
    let provider = AppRel {
        app: "app-1".to_string(),
        rel: "provider".to_string(),
    };
    let requirer = AppRel {
        app: "app-2".to_string(),
        rel: "requirer".to_string(),
    };
    assert_eq!(provider.get_relation_label(&provider), "provider");
    assert_eq!(provider.get_relation_label(&requirer), "provider:requirer");
    assert_eq!(requirer.get_relation_label(&provider), "provider:requirer");
}

#[test]
fn colon_notation_without_colon_is_malformed() {
    assert_eq!(AppRel::from_colon_notation("hydra"), Err(Error::MalformedEndpoint));
    assert_eq!(AppRel::from_colon_notation(""), Err(Error::MalformedEndpoint));
}

#[test]
fn colon_notation_splits_at_first_colon_only() {
    assert_eq!(AppRel::from_colon_notation("a:b:c"), Ok(endpoint("a", "b:c")));
    assert_eq!(AppRel::from_colon_notation(":rel"), Ok(endpoint("", "rel")));
    assert_eq!(AppRel::from_colon_notation("app:"), Ok(endpoint("app", "")));
    assert_eq!(AppRel::from_colon_notation(":"), Ok(endpoint("", "")));
}

#[test]
fn colon_notation_counts_characters_not_bytes() {
    assert_eq!(
        AppRel::from_colon_notation("caf\u{e9}:r\u{f4}le"),
        Ok(endpoint("caf\u{e9}", "r\u{f4}le"))
    );
}

#[test]
fn label_of_equal_roles_is_the_role() {
    let a = endpoint("a", "db");
    let b = endpoint("b", "db");
    assert_eq!(a.get_relation_label(&b), "db");
    assert_eq!(b.get_relation_label(&a), "db");
}

#[test]
fn label_is_the_same_in_both_orders() {
    let pairs = [
        ("a", "b"),
        ("ab", "abc"),
        ("", "x"),
        ("Zeta", "alpha"),
        ("role-1", "role-10"),
        ("\u{e9}", "z"),
        ("\u{10000}", "\u{ffff}"),
    ];
    for (r1, r2) in pairs {
        let a = endpoint("a", r1);
        let b = endpoint("b", r2);
        let expected = if r1 < r2 { format!("{}:{}", r1, r2) } else { format!("{}:{}", r2, r1) };
        assert_eq!(a.get_relation_label(&b), expected);
        assert_eq!(b.get_relation_label(&a), expected);
    }
}

#[test]
fn label_puts_a_prefix_first() {
    let a = endpoint("a", "abc");
    let b = endpoint("b", "ab");
    assert_eq!(a.get_relation_label(&b), "ab:abc");
}

#[test]
fn label_orders_by_code_point() {
    let a = endpoint("a", "a");
    let b = endpoint("b", "B");
    assert_eq!(a.get_relation_label(&b), "B:a");
}

#[test]
fn relation_from_string_pair() {
    assert_eq!(
        Relation::from_string_pair("hydra:pg-database", "postgresql-k8s:database"),
        Ok(Relation {
            first: "hydra".to_string(),
            second: "postgresql-k8s".to_string(),
            label: "database:pg-database".to_string(),
        })
    );
}

#[test]
fn relation_from_malformed_pair() {
    assert_eq!(Relation::from_string_pair("hydra", "pg:db"), Err(Error::MalformedEndpoint));
    assert_eq!(Relation::from_string_pair("hydra:db", "pg"), Err(Error::MalformedEndpoint));
}

#[test]
fn bundle_with_one_relation_as_flowchart() {
    let graph = bundle_of(&[("a:p", "b:p")]).to_graph().unwrap();
    assert_eq!(graph.graph().to_mermaid(), "graph LR\na ---|p| b\n");
}

#[test]
fn bundle_with_two_roles_as_graph_description() {
    let graph = bundle_of(&[("a:provider", "b:requirer")]).to_graph().unwrap();
    let text = graph.graph().to_graphviz();
    assert!(text.lines().any(|line| line == "\"a\" -- \"b\" [label=\"provider:requirer\"]"));
    assert_eq!(text, "graph {\n\"a\" -- \"b\" [label=\"provider:requirer\"]\n}\n");
}

#[test]
fn bundle_spotlight() {
    let graph = bundle_of(&[("a:p", "b:p"), ("a:p", "c:p")]).to_graph().unwrap();
    let near = graph.neighbors(&"a".to_string());
    assert_eq!(near.node_count(), 3);
    assert_eq!(near.edge_count(), 2);
    let mut names: Vec<String> = near.graph().node_weights().cloned().collect();
    names.sort();
    assert_eq!(names, vec!["a".to_string(), "b".to_string(), "c".to_string()]);
}

#[test]
fn bundle_keeps_the_order_of_its_relations() {
    let graph = bundle_of(&[
        ("hydra:pg-database", "postgresql-k8s:database"),
        ("kratos:pg-database", "postgresql-k8s:database"),
        ("hydra:pg-database", "postgresql-k8s:database"),
    ])
    .to_graph()
    .unwrap();
    assert_eq!(graph.graph().node_count(), 3);
    assert_eq!(graph.graph().edge_count(), 3);
    let names: Vec<String> = graph.graph().node_weights().cloned().collect();
    assert_eq!(names, vec!["hydra".to_string(), "postgresql-k8s".to_string(), "kratos".to_string()]);
    assert_eq!(
        graph.graph().to_mermaid(),
        "graph LR\n\
         hydra ---|database:pg-database| postgresql-k8s\n\
         kratos ---|database:pg-database| postgresql-k8s\n\
         hydra ---|database:pg-database| postgresql-k8s\n"
    );
}

#[test]
fn bundle_with_a_malformed_endpoint_gives_no_graph() {
    let result = bundle_of(&[("a:p", "b:p"), ("a:p", "c")]).to_graph();
    assert!(matches!(result, Err(Error::MalformedEndpoint)));
}

#[test]
fn empty_bundle_gives_the_empty_graph() {
    let graph = bundle_of(&[]).to_graph().unwrap();
    assert_eq!(graph.graph().node_count(), 0);
    assert_eq!(graph.graph().edge_count(), 0);
    assert_eq!(graph.graph().to_mermaid(), "graph LR\n");
    assert_eq!(graph.graph().to_graphviz(), "graph {\n}\n");
}
