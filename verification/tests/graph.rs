use llm_wiki_web::graph::{build_graph, GraphSource};

fn page(name: &str, content: &str) -> GraphSource {
    GraphSource { file_name: name.to_string(), path: format!("wiki/{name}"), content: content.to_string() }
}

fn sample() -> Vec<GraphSource> {
    vec![
        page("beta.md", "# Beta\ntype: concept\nlinks [[alpha]] and [[Alpha]] and [[beta]]"),
        page("alpha.md", "# Alpha\ntype: entity\nsee [[Beta]] and [[gamma|G]] and [[missing]]"),
        page("gamma.md", "type: query\n[[alpha]]"),
        page("notes.txt", "[[alpha]]"),
    ]
}

#[test]
fn graph_has_one_edge_per_linked_pair() {
    let g = build_graph(&sample(), None, None, 200);
    let ids: Vec<&str> = g.nodes.iter().map(|n| n.id.as_str()).collect();
    assert_eq!(ids, vec!["alpha", "beta"]);
    assert_eq!(g.nodes[0].label, "Alpha");
    assert_eq!(g.nodes[0].node_type, "entity");
    assert_eq!(g.nodes[0].path, "wiki/alpha.md");
    assert_eq!(g.nodes[0].link_count, 2);
    assert_eq!(g.nodes[1].link_count, 1);
    assert_eq!(g.edges.len(), 1);
    assert_eq!(g.edges[0].source, "alpha");
    assert_eq!(g.edges[0].target, "beta");
}

#[test]
fn graph_filters_and_limits_nodes() {
    let by_type = build_graph(&sample(), None, Some("concept".to_string()), 200);
    assert_eq!(by_type.nodes.len(), 1);
    assert_eq!(by_type.nodes[0].id, "beta");
    assert!(by_type.edges.is_empty());
    let by_q = build_graph(&sample(), Some("alp".to_string()), None, 200);
    assert_eq!(by_q.nodes.len(), 1);
    let limited = build_graph(&sample(), None, None, 1);
    assert_eq!(limited.nodes.len(), 1);
    assert_eq!(limited.nodes[0].id, "alpha");
    assert!(limited.edges.is_empty());
}

#[test]
fn later_file_with_the_same_stem_wins() {
    let g = build_graph(&[page("a.md", "# One"), page("a.md", "# Two")], None, None, 10);
    assert_eq!(g.nodes.len(), 1);
    assert_eq!(g.nodes[0].label, "Two");
}

#[test]
fn every_edge_joins_two_shown_nodes() {
    let pages = vec![
        page("a.md", "[[b]] [[c]]"),
        page("b.md", "[[c]] [[a]]"),
        page("c.md", "[[a]]"),
    ];
    let g = build_graph(&pages, None, None, 2);
    assert_eq!(g.nodes.len(), 2);
    assert_eq!(g.edges.len(), 1);
    for e in &g.edges {
        assert!(g.nodes.iter().any(|n| n.id == e.source));
        assert!(g.nodes.iter().any(|n| n.id == e.target));
    }
}
