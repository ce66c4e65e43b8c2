use temporal_graph::{
    check_multigraph_parameters, parse_temporal_graph_line, parse_temporal_graphs,
    timestamp_count, timestamps_up_to, GenerateError, LineError, MultigraphLine, ParameterError,
    ParseError, TemporalGraph,
};

#[test]
fn test_is_connected_empty() {
    let graph = TemporalGraph::new();
    assert!(graph.is_connected());
}

#[test]
fn test_is_connected_single_vertex() {
    let mut graph = TemporalGraph::new();
    graph.add_vertex(0);
    assert!(graph.is_connected());
}

#[test]
fn test_is_connected_path() {
    let mut graph = TemporalGraph::new();
    graph.add_edge(0, 1, 0);
    graph.add_edge(1, 2, 1);
    graph.add_edge(2, 3, 2);

    assert!(graph.is_connected());
}

#[test]
fn test_is_not_connected() {
    let mut graph = TemporalGraph::new();
    graph.add_edge(0, 1, 0);
    graph.add_edge(2, 3, 1);

    assert!(!graph.is_connected());
}

#[test]
fn test_is_connected_disconnected_vertices() {
    let mut graph = TemporalGraph::new();
    graph.add_vertex(0);
    graph.add_vertex(1);
    graph.add_vertex(2);

    assert!(!graph.is_connected());
}

#[test]
fn test_is_connected_edge_and_isolated_vertex() {
    let mut graph = TemporalGraph::new();
    graph.add_edge(3, 1, 0);
    graph.add_edge(1, 2, 0);
    assert!(graph.is_connected());
    graph.add_vertex(0);
    assert!(!graph.is_connected());
    graph.add_edge(0, 0, 4);
    assert!(!graph.is_connected());
    graph.add_edge(0, 2, 9);
    assert!(graph.is_connected());
}

#[test]
fn test_validate_parameters() {
    // n must be positive
    let result = check_multigraph_parameters(0, 3, 4);
    assert!(result.is_err());

    // M must be >= m
    let result = check_multigraph_parameters(4, 5, 3);
    assert!(result.is_err());

    // m must be <= max possible edges
    let result = check_multigraph_parameters(4, 10, 10);
    assert!(result.is_err());
}

#[test]
fn test_parameter_errors_and_messages() {
    assert_eq!(check_multigraph_parameters(0, 3, 4), Err(ParameterError::NoVertices));
    assert_eq!(
        check_multigraph_parameters(4, 5, 3),
        Err(ParameterError::TotalBelowBase { total: 3, base: 5 })
    );
    assert_eq!(
        check_multigraph_parameters(4, 10, 10),
        Err(ParameterError::TooManyBaseEdges { base: 10, maximum: 6, vertices: 4 })
    );
    assert_eq!(check_multigraph_parameters(4, 6, 6), Ok(()));
    assert_eq!(check_multigraph_parameters(4, 3, 4), Ok(()));
    assert_eq!(check_multigraph_parameters(1, 0, 0), Ok(()));
    assert_eq!(
        check_multigraph_parameters(1, 1, 1),
        Err(ParameterError::TooManyBaseEdges { base: 1, maximum: 0, vertices: 1 })
    );
    assert_eq!(check_multigraph_parameters(usize::MAX, usize::MAX, usize::MAX), Ok(()));
    assert_eq!(ParameterError::NoVertices.message(), "Number of vertices must be positive");
    assert_eq!(
        ParameterError::TotalBelowBase { total: 3, base: 5 }.message(),
        format!("Total edges M={} must be >= base edges m={}", 3, 5)
    );
    assert_eq!(
        ParameterError::TooManyBaseEdges { base: 10, maximum: 6, vertices: 4 }.message(),
        format!("Base edges m={} exceeds maximum {} for {} vertices", 10, 6, 4)
    );
}

#[test]
fn test_parse_multigraph_line() {
    let line = "7 6  0 3 2 0 5 1 1 4 1 1 6 1 2 5 1 2 6 1";
    let mg = MultigraphLine::parse(line).unwrap();

    assert_eq!(mg.num_vertices, 7);
    assert_eq!(mg.edges.len(), 6);
    assert_eq!(mg.edges[0], (0, 3, 2));
    assert_eq!(mg.edges[1], (0, 5, 1));
}

#[test]
fn test_to_temporal_graph() {
    let mg = MultigraphLine { num_vertices: 4, edges: vec![(0, 1, 2), (1, 2, 1)] };

    let timestamps = vec![1, 2, 3];
    let result = mg.to_temporal_graph(&timestamps);

    // Format: 4 3 0 1 2 1 2 1 2 1 3
    assert!(result.contains("4 3"));
    assert!(result.contains("0 1 2 1 2"));
    assert!(result.contains("1 2 1 3"));
}

#[test]
fn test_to_temporal_graph_exact_text() {
    let mg = MultigraphLine { num_vertices: 4, edges: vec![(0, 1, 2), (1, 2, 1)] };
    assert_eq!(mg.to_temporal_graph(&[1, 2, 3]), "4 3 0 1 2 1 2 1 2 1 3");
    assert_eq!(mg.to_temporal_graph(&[-7, 20, 3, 99]), "4 3 0 1 2 -7 20 1 2 1 3");
    let none = MultigraphLine { num_vertices: 0, edges: vec![] };
    assert_eq!(none.to_temporal_graph(&[]), "0 0");
    let empty_edge = MultigraphLine { num_vertices: 2, edges: vec![(0, 1, 0), (1, 0, 1)] };
    assert_eq!(empty_edge.to_temporal_graph(&[5]), "2 1 0 1 0 1 0 1 5");
}

#[test]
fn test_multigraph_parse_details() {
    // the second token is not read, and tokens left over at the end are passed over
    let mg = MultigraphLine::parse("3 x 0 1 2 1 2").unwrap();
    assert_eq!(mg.num_vertices, 3);
    assert_eq!(mg.edges, vec![(0, 1, 2)]);
    assert_eq!(MultigraphLine::parse("3").err(), Some(ParseError::LineTooShort));
    assert_eq!(MultigraphLine::parse("").err(), Some(ParseError::LineTooShort));
    assert_eq!(MultigraphLine::parse("x 1").err(), Some(ParseError::InvalidVertexCount));
    assert_eq!(
        MultigraphLine::parse("3 1 a 1 1").err(),
        Some(ParseError::InvalidVertexU { position: 2 })
    );
    assert_eq!(
        MultigraphLine::parse("3 1 0 b 1").err(),
        Some(ParseError::InvalidVertexV { position: 3 })
    );
    assert_eq!(
        MultigraphLine::parse("3 1 0 1 1 1 2 -1").err(),
        Some(ParseError::InvalidMultiplicity { position: 7 })
    );
    let mg = MultigraphLine::parse("3 2  0 1 1 1 2 1").unwrap();
    assert_eq!(mg.total_edges(), Some(2));
    let huge = MultigraphLine { num_vertices: 2, edges: vec![(0, 1, usize::MAX), (0, 1, 1)] };
    assert_eq!(huge.total_edges(), None);
}

#[test]
fn test_temporal_lines_for_all_permutations() {
    let mg = MultigraphLine::parse("3 2  0 1 1 1 2 1").unwrap();
    let timestamps = timestamps_up_to(2);
    assert_eq!(timestamps, vec![1, 2]);
    let lines = mg.temporal_lines(&timestamps, 2);
    assert_eq!(lines, vec!["3 2 0 1 1 1 1 2 1 2".to_string(), "3 2 0 1 1 2 1 2 1 1".to_string()]);

    let mg = MultigraphLine { num_vertices: 2, edges: vec![(0, 1, 3)] };
    let lines = mg.temporal_lines(&timestamps_up_to(3), 3);
    assert_eq!(
        lines,
        vec![
            "2 3 0 1 3 1 2 3".to_string(),
            "2 3 0 1 3 1 3 2".to_string(),
            "2 3 0 1 3 2 1 3".to_string(),
            "2 3 0 1 3 2 3 1".to_string(),
            "2 3 0 1 3 3 1 2".to_string(),
            "2 3 0 1 3 3 2 1".to_string(),
        ]
    );
    // more places than timestamps: no permutation
    assert_eq!(mg.temporal_lines(&timestamps_up_to(2), 3).len(), 0);
}

#[test]
fn test_lines_for_given_assignments() {
    let mg = MultigraphLine { num_vertices: 3, edges: vec![(0, 1, 1), (1, 2, 1)] };
    let lines = mg.lines_for(&vec![vec![9, 8], vec![8, 9, 7]]);
    assert_eq!(lines, vec!["3 2 0 1 1 9 1 2 1 8".to_string(), "3 2 0 1 1 8 1 2 1 9".to_string()]);
    assert_eq!(mg.lines_for(&vec![]).len(), 0);
}

#[test]
fn test_timestamps_up_to() {
    assert_eq!(timestamps_up_to(0), Vec::<i64>::new());
    assert_eq!(timestamps_up_to(1), vec![1]);
    assert_eq!(timestamps_up_to(4), vec![1, 2, 3, 4]);
}

#[test]
fn test_timestamp_count() {
    let lines = vec!["".to_string(), "  \t".to_string(), "3 2  0 1 1 1 2 1".to_string()];
    assert_eq!(timestamp_count(&lines), Ok(2));
    let lines = vec!["3 2  0 1 2 1 2 3".to_string(), "bad".to_string()];
    assert_eq!(timestamp_count(&lines), Ok(5));
    assert_eq!(timestamp_count(&vec![]), Err(GenerateError::NoValidMultigraphs));
    assert_eq!(timestamp_count(&vec![" ".to_string()]), Err(GenerateError::NoValidMultigraphs));
    assert_eq!(
        timestamp_count(&vec!["x 2 0 1 1".to_string(), "3 2 0 1 1".to_string()]),
        Err(GenerateError::NoValidMultigraphs)
    );
    assert_eq!(timestamp_count(&vec!["3 0".to_string()]), Err(GenerateError::NoEdges));
    assert_eq!(timestamp_count(&vec!["3 1 0 1 0".to_string()]), Err(GenerateError::NoEdges));
    let big = format!("2 2 0 1 {} 0 1 {}", usize::MAX, 1);
    assert_eq!(timestamp_count(&vec![big]), Err(GenerateError::TooManyEdges));
    assert_eq!(GenerateError::NoValidMultigraphs.message(), "No valid multigraphs in input file");
    assert_eq!(GenerateError::NoEdges.message(), "Multigraphs have no edges");
    assert_eq!(GenerateError::TooManyEdges.message(), "Multigraphs have too many edges");
}

#[test]
fn test_parse_temporal_graph_line_simple() {
    let line = "3 2  0 1 1 5  1 2 1 10";
    let graph = parse_temporal_graph_line(line).unwrap();

    assert_eq!(graph.vertex_count(), 3);
    assert_eq!(graph.edge_count(), 2);
    assert!(graph.has_edge_at_time(0, 1, 5));
    assert!(graph.has_edge_at_time(1, 2, 10));
}

#[test]
fn test_parse_temporal_graph_line_multiple_timestamps() {
    let line = "4 3  0 1 2 1 2  1 2 1 3";
    let graph = parse_temporal_graph_line(line).unwrap();

    assert_eq!(graph.vertex_count(), 4);

    // Edge 0-1 has timestamps 1 and 2
    assert!(graph.has_edge_at_time(0, 1, 1));
    assert!(graph.has_edge_at_time(0, 1, 2));

    // Edge 1-2 has timestamp 3
    assert!(graph.has_edge_at_time(1, 2, 3));

    let edge_01_times = graph.edge_times(0, 1).unwrap();
    assert_eq!(edge_01_times.len(), 2);
}

#[test]
fn test_parse_temporal_graph_line_example() {
    let line = "7 6  0 3 2 1 2  0 5 1 3  1 4 1 4  1 6 1 5  2 5 1 6  2 6 1 7";
    let graph = parse_temporal_graph_line(line).unwrap();

    assert_eq!(graph.vertex_count(), 7);
    assert_eq!(graph.edge_count(), 6);

    // Edge 0-3 has 2 timestamps
    let edge_03_times = graph.edge_times(0, 3).unwrap();
    assert_eq!(edge_03_times.len(), 2);
    assert!(edge_03_times.contains(&1));
    assert!(edge_03_times.contains(&2));

    // Other edges have 1 timestamp each
    assert!(graph.has_edge_at_time(0, 5, 3));
    assert!(graph.has_edge_at_time(1, 4, 4));
}

#[test]
fn test_parse_invalid_line() {
    let line = "3 2  0 1"; // Incomplete
    let result = parse_temporal_graph_line(line);
    assert!(result.is_err());
}

#[test]
fn test_parse_temporal_graph_line_errors() {
    let err = |line: &str| parse_temporal_graph_line(line).err();
    assert_eq!(err(""), Some(ParseError::LineTooShort));
    assert_eq!(err("   3  "), Some(ParseError::LineTooShort));
    assert_eq!(err("-3 2"), Some(ParseError::InvalidVertexCount));
    assert_eq!(err("3 two"), Some(ParseError::InvalidEdgeCount));
    assert_eq!(err("3 2  0 1"), Some(ParseError::IncompleteEdge { position: 2 }));
    assert_eq!(err("3 2  0 1 1 5  1"), Some(ParseError::IncompleteEdge { position: 6 }));
    assert_eq!(err("3 2  a 1 1 5"), Some(ParseError::InvalidVertexU { position: 2 }));
    assert_eq!(err("3 2  0 1.5 1 5"), Some(ParseError::InvalidVertexV { position: 3 }));
    assert_eq!(err("3 2  0 1 -1 5"), Some(ParseError::InvalidTimestampCount { position: 4 }));
    assert_eq!(err("3 2  0 1 2 5"), Some(ParseError::NotEnoughTimestamps { u: 0, v: 1 }));
    assert_eq!(err("3 2  0 1 1"), Some(ParseError::NotEnoughTimestamps { u: 0, v: 1 }));
    assert_eq!(err("3 2  0 1 0"), None);
    assert_eq!(err("3 2  0 1 0 7"), Some(ParseError::IncompleteEdge { position: 5 }));
    assert_eq!(
        err(&format!("3 2  0 1 {} 5", usize::MAX)),
        Some(ParseError::NotEnoughTimestamps { u: 0, v: 1 })
    );
    assert_eq!(err("3 2  0 1 2 5 x"), Some(ParseError::InvalidTimestamp { position: 6 }));
    assert_eq!(
        err("3 2  0 1 1 99999999999999999999"),
        Some(ParseError::InvalidTimestamp { position: 5 })
    );
}

#[test]
fn test_parse_temporal_graph_line_details() {
    // no edges: the vertices alone
    let graph = parse_temporal_graph_line("3 0").unwrap();
    assert_eq!(graph.vertices(), vec![0, 1, 2]);
    assert_eq!(graph.edge_count(), 0);
    // endpoints beyond the vertex count become vertices, negative timestamps are read,
    // a repeated timestamp counts once, and the edge count is not checked
    let graph = parse_temporal_graph_line("\t2 7 9 +4 3 -5 +6 -5\u{a0}1 0 1 0\n").unwrap();
    assert_eq!(graph.vertices(), vec![0, 1, 4, 9]);
    assert_eq!(graph.edge_times(4, 9), Some(vec![-5, 6]));
    assert_eq!(graph.edge_times(0, 1), Some(vec![0]));
    assert_eq!(graph.edge_count(), 2);
    // an edge without timestamps adds nothing
    let graph = parse_temporal_graph_line("1 1 5 6 0").unwrap();
    assert_eq!(graph.vertices(), vec![0]);
    assert_eq!(graph.edge_count(), 0);
}

#[test]
fn test_parse_error_messages() {
    assert_eq!(ParseError::LineTooShort.message(), "Line too short");
    assert_eq!(ParseError::InvalidVertexCount.message(), "Invalid number of vertices");
    assert_eq!(ParseError::InvalidEdgeCount.message(), "Invalid number of edges");
    assert_eq!(
        ParseError::IncompleteEdge { position: 12 }.message(),
        format!("Incomplete edge data at position {}", 12)
    );
    assert_eq!(
        ParseError::InvalidVertexU { position: 2 }.message(),
        format!("Invalid vertex u at position {}", 2)
    );
    assert_eq!(
        ParseError::InvalidVertexV { position: 3 }.message(),
        format!("Invalid vertex v at position {}", 3)
    );
    assert_eq!(
        ParseError::InvalidTimestampCount { position: 4 }.message(),
        format!("Invalid timestamp count at position {}", 4)
    );
    assert_eq!(
        ParseError::NotEnoughTimestamps { u: 10, v: 0 }.message(),
        format!("Not enough timestamps for edge ({}, {})", 10, 0)
    );
    assert_eq!(
        ParseError::InvalidTimestamp { position: 105 }.message(),
        format!("Invalid timestamp at position {}", 105)
    );
    assert_eq!(
        ParseError::InvalidMultiplicity { position: 7 }.message(),
        format!("Invalid multiplicity at position {}", 7)
    );
    assert_eq!(
        LineError { line: 3, error: ParseError::LineTooShort }.message(),
        format!("Line {}: {}", 3, "Line too short")
    );
}

#[test]
fn test_parse_temporal_graphs_from_lines() {
    let lines = vec![
        "3 2  0 1 1 5  1 2 1 10".to_string(),
        "4 3  0 1 2 1 2  1 2 1 3".to_string(),
        "".to_string(),
        "3 1  0 2 1 7".to_string(),
    ];
    let graphs = parse_temporal_graphs(&lines).unwrap();

    assert_eq!(graphs.len(), 3);
    assert_eq!(graphs[0].vertex_count(), 3);
    assert_eq!(graphs[1].vertex_count(), 4);
    assert_eq!(graphs[2].vertex_count(), 3);
    assert!(graphs[2].has_edge_at_time(0, 2, 7));

    let lines = vec!["3 0".to_string(), " \t ".to_string(), "3 2  0 1".to_string(), "x".to_string()];
    assert_eq!(
        parse_temporal_graphs(&lines).err(),
        Some(LineError { line: 3, error: ParseError::IncompleteEdge { position: 2 } })
    );
    assert_eq!(parse_temporal_graphs(&vec![]).unwrap().len(), 0);
}
