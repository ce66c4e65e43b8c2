use temporal_graph::TemporalGraph;

#[test]
fn test_add_vertex() {
    let mut graph = TemporalGraph::new();
    assert!(graph.add_vertex(0));
    assert!(graph.add_vertex(1));
    // Adding same vertex again should return false
    assert!(!graph.add_vertex(0));
    assert_eq!(graph.vertex_count(), 2);
}

#[test]
fn test_add_edge_creates_vertices() {
    let mut graph = TemporalGraph::new();
    graph.add_edge(0, 1, 5);

    // Vertices should be automatically created
    assert!(graph.has_vertex(0));
    assert!(graph.has_vertex(1));
    assert_eq!(graph.vertex_count(), 2);
}

#[test]
fn test_add_edge_multiple_timestamps() {
    let mut graph = TemporalGraph::new();
    graph.add_edge(0, 1, 0);
    graph.add_edge(0, 1, 5);
    graph.add_edge(0, 1, 10);

    let times = graph.edge_times(0, 1);
    assert!(times.is_some());
    let times = times.unwrap();
    assert_eq!(times.len(), 3);
    assert!(times.contains(&0));
    assert!(times.contains(&5));
    assert!(times.contains(&10));
}

#[test]
fn test_edge_undirected() {
    let mut graph = TemporalGraph::new();
    graph.add_edge(0, 1, 5);

    // Both orderings should find the same edge
    assert!(graph.edge_times(0, 1).is_some());
    assert!(graph.edge_times(1, 0).is_some());

    // Both should return the same timestamps
    assert_eq!(graph.edge_times(0, 1), graph.edge_times(1, 0));
}

#[test]
fn test_edges_at_time() {
    let mut graph = TemporalGraph::new();
    graph.add_edge(0, 1, 0);
    graph.add_edge(0, 1, 5);
    graph.add_edge(1, 2, 5);
    graph.add_edge(2, 3, 10);

    let edges_at_0 = graph.edges_at_time(0);
    assert_eq!(edges_at_0.len(), 1);

    let edges_at_5 = graph.edges_at_time(5);
    assert_eq!(edges_at_5.len(), 2);

    let edges_at_10 = graph.edges_at_time(10);
    assert_eq!(edges_at_10.len(), 1);

    let edges_at_100 = graph.edges_at_time(100);
    assert_eq!(edges_at_100.len(), 0);
}

#[test]
fn test_neighbors_at_time() {
    let mut graph = TemporalGraph::new();
    graph.add_edge(0, 1, 5);
    graph.add_edge(0, 2, 5);
    graph.add_edge(1, 2, 5);
    graph.add_edge(0, 3, 10);

    let neighbors_0_at_5 = graph.neighbors_at_time(0, 5);
    assert_eq!(neighbors_0_at_5.len(), 2);
    assert!(neighbors_0_at_5.contains(&1));
    assert!(neighbors_0_at_5.contains(&2));

    let neighbors_0_at_10 = graph.neighbors_at_time(0, 10);
    assert_eq!(neighbors_0_at_10.len(), 1);
    assert!(neighbors_0_at_10.contains(&3));
}

#[test]
fn test_has_edge_at_time() {
    let mut graph = TemporalGraph::new();
    graph.add_edge(0, 1, 5);
    graph.add_edge(0, 1, 10);

    assert!(graph.has_edge_at_time(0, 1, 5));
    assert!(graph.has_edge_at_time(0, 1, 10));
    assert!(!graph.has_edge_at_time(0, 1, 7));

    // Test undirected property
    assert!(graph.has_edge_at_time(1, 0, 5));
    assert!(graph.has_edge_at_time(1, 0, 10));
}

#[test]
fn test_edge_normalization() {
    let mut graph = TemporalGraph::new();

    // Add edge in both directions
    graph.add_edge(0, 1, 5);
    graph.add_edge(1, 0, 10);

    // Should be stored as single edge with both timestamps
    assert_eq!(graph.edge_count(), 1);

    let times = graph.edge_times(0, 1).unwrap();
    assert_eq!(times.len(), 2);
    assert!(times.contains(&5));
    assert!(times.contains(&10));
}

#[test]
fn test_empty_graph() {
    let graph = TemporalGraph::new();
    assert_eq!(graph.vertex_count(), 0);
    assert_eq!(graph.edge_count(), 0);
    assert_eq!(graph.edges_at_time(0).len(), 0);
}

#[test]
fn test_isolated_vertices() {
    let mut graph = TemporalGraph::new();
    graph.add_vertex(0);
    graph.add_vertex(1);
    graph.add_vertex(2);

    assert_eq!(graph.vertex_count(), 3);
    assert_eq!(graph.edge_count(), 0);
    assert_eq!(graph.neighbors_at_time(0, 0).len(), 0);
}

#[test]
fn test_remove_edge_timestamp_auto_cleanup() {
    let mut graph = TemporalGraph::new();
    graph.add_edge(0, 1, 5);

    assert_eq!(graph.edge_count(), 1);

    // Remove the only timestamp
    assert!(graph.remove_edge_timestamp(0, 1, 5));

    // Edge should be automatically removed
    assert_eq!(graph.edge_count(), 0);
    assert!(graph.edge_times(0, 1).is_none());
}

#[test]
fn test_remove_edge_timestamp_keeps_edge_with_remaining_timestamps() {
    let mut graph = TemporalGraph::new();
    graph.add_edge(0, 1, 5);
    graph.add_edge(0, 1, 10);

    assert_eq!(graph.edge_count(), 1);

    // Remove one timestamp
    assert!(graph.remove_edge_timestamp(0, 1, 5));

    // Edge should still exist with remaining timestamp
    assert_eq!(graph.edge_count(), 1);
    assert!(graph.has_edge_at_time(0, 1, 10));
    assert!(!graph.has_edge_at_time(0, 1, 5));
}

#[test]
fn test_remove_multiple_timestamps_sequential() {
    let mut graph = TemporalGraph::new();
    graph.add_edge(0, 1, 5);
    graph.add_edge(0, 1, 10);
    graph.add_edge(0, 1, 15);

    // Remove timestamps one by one
    assert!(graph.remove_edge_timestamp(0, 1, 5));
    assert_eq!(graph.edge_count(), 1); // Still has 2 timestamps

    assert!(graph.remove_edge_timestamp(0, 1, 10));
    assert_eq!(graph.edge_count(), 1); // Still has 1 timestamp

    assert!(graph.remove_edge_timestamp(0, 1, 15));
    assert_eq!(graph.edge_count(), 0); // Now removed
    assert!(graph.edge_times(0, 1).is_none());
}
