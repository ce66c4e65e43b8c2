use temporal_graph::{edge_label, TemporalGraph};

fn graph_of(edges: &[(usize, usize, i64)]) -> TemporalGraph {
    let mut graph = TemporalGraph::new();
    for &(u, v, t) in edges {
        graph.add_edge(u, v, t);
    }
    graph
}

#[test]
fn test_edge_label() {
    assert_eq!(edge_label(&vec![]), "");
    assert_eq!(edge_label(&vec![7]), "7");
    assert_eq!(edge_label(&vec![-3, 0, 12]), "-3, 0, 12");
    assert_eq!(edge_label(&vec![1, 2, 3, 4, 5]), "1, 2, 3, 4, 5");
    assert_eq!(edge_label(&vec![1, 2, 3, 4, 5, 6]), "1..6 (6 times)");
    assert_eq!(edge_label(&vec![-9, 2, 3, 4, 5, 6, 40]), "-9..40 (7 times)");
}

#[test]
fn test_state_lines() {
    assert_eq!(
        TemporalGraph::new().to_state().lines(),
        vec!["Graph State:".to_string(), "  (no edges)".to_string()]
    );
    let graph = graph_of(&[(2, 1, 10), (0, 1, 5), (1, 2, -4), (0, 1, 3)]);
    assert_eq!(
        graph.to_state().lines(),
        vec![
            "Graph State:".to_string(),
            "    0 -- 1 : [3, 5]".to_string(),
            "    1 -- 2 : [-4, 10]".to_string(),
        ]
    );
}

#[test]
fn test_drawing_with_labels() {
    let mut graph = graph_of(&[(2, 1, 10), (0, 1, 5), (0, 1, 3)]);
    for t in 0..7 {
        graph.add_edge(3, 1, t * 2);
    }
    graph.add_vertex(8);
    let dot = graph.to_dot_with_time_labels();
    assert_eq!(dot.name, "temporal_graph");
    assert!(dot.strict);
    let attributes: Vec<(String, String)> =
        dot.node_attributes.iter().map(|a| (a.name.clone(), a.value.clone())).collect();
    assert_eq!(
        attributes,
        vec![
            ("shape".to_string(), "circle".to_string()),
            ("style".to_string(), "filled".to_string()),
            ("fillcolor".to_string(), "lightblue".to_string()),
        ]
    );
    assert_eq!(dot.nodes, vec![0, 1, 2, 3, 8]);
    let edges: Vec<(usize, usize, Option<String>)> =
        dot.edges.iter().map(|e| (e.from, e.to, e.label.clone())).collect();
    assert_eq!(
        edges,
        vec![
            (0, 1, Some("3, 5".to_string())),
            (1, 2, Some("10".to_string())),
            (1, 3, Some("0..12 (7 times)".to_string())),
        ]
    );
}

#[test]
fn test_drawing_at_time() {
    let graph = graph_of(&[(2, 1, 10), (0, 1, 5), (0, 1, 10), (3, 4, 5)]);
    let dot = graph.to_dot_at_time(10);
    assert_eq!(dot.name, "temporal_graph");
    assert!(dot.strict);
    assert_eq!(dot.node_attributes.len(), 1);
    assert_eq!(dot.node_attributes[0].name, "shape");
    assert_eq!(dot.node_attributes[0].value, "circle");
    assert_eq!(dot.nodes, vec![0, 1, 2, 3, 4]);
    let edges: Vec<(usize, usize, Option<String>)> =
        dot.edges.iter().map(|e| (e.from, e.to, e.label.clone())).collect();
    assert_eq!(edges, vec![(0, 1, None), (1, 2, None)]);
    assert_eq!(graph.to_dot_at_time(7).edges.len(), 0);
}

#[test]
fn test_all_times() {
    assert_eq!(TemporalGraph::new().all_times(), Vec::<i64>::new());
    let graph = graph_of(&[(2, 1, 10), (0, 1, 5), (0, 1, 10), (3, 4, -5), (3, 3, 5), (0, 4, 7)]);
    assert_eq!(graph.all_times(), vec![-5, 5, 7, 10]);
}
