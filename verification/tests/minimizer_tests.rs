use temporal_graph::{
    LabelMinimizer, MinimizationConfig, MinimizationStats, TemporalGraph, TerminationReason,
};

fn graph_of(edges: &[(usize, usize, i64)]) -> TemporalGraph {
    let mut graph = TemporalGraph::new();
    for &(u, v, t) in edges {
        graph.add_edge(u, v, t);
    }
    graph
}

fn counters(stats: MinimizationStats) -> (usize, usize, usize, usize, usize) {
    (
        stats.iterations,
        stats.transfers_attempted,
        stats.transfers_successful,
        stats.useless_labels_found,
        stats.states_visited,
    )
}

#[test]
fn test_default_configuration() {
    let config = MinimizationConfig::new();
    assert_eq!(config.max_iterations, Some(10_000));
    assert!(!config.track_statistics);
    assert!(!config.verbose);
    let config = MinimizationConfig::default();
    assert_eq!(config.max_iterations, Some(10_000));
    assert!(!config.track_statistics);
    assert!(!config.verbose);
}

#[test]
fn test_configuration_builders() {
    let config = MinimizationConfig::new().with_max_iterations(5);
    assert_eq!(config.max_iterations, Some(5));
    assert!(!config.track_statistics && !config.verbose);
    let config = config.unlimited_iterations();
    assert_eq!(config.max_iterations, None);
    let config = config.with_statistics();
    assert!(config.track_statistics && !config.verbose);
    assert_eq!(config.max_iterations, None);
    let config = config.verbose();
    assert!(config.track_statistics && config.verbose);
    let config = config.with_max_iterations(0);
    assert_eq!(config.max_iterations, Some(0));
    assert!(config.track_statistics && config.verbose);
}

#[test]
fn test_new_statistics_are_zero() {
    assert_eq!(counters(MinimizationStats::new()), (0, 0, 0, 0, 0));
    assert_eq!(counters(MinimizationStats::default()), (0, 0, 0, 0, 0));
}

#[test]
fn test_zero_cap_ends_at_once() {
    for edges in [
        vec![(0, 1, 0), (0, 1, 10), (1, 2, 5)],
        vec![(0, 1, 1)],
        vec![(0, 1, 1), (0, 1, 4), (0, 2, 4), (1, 2, 3)],
    ] {
        let mut graph = graph_of(&edges);
        let before = graph.to_state();
        let config = MinimizationConfig::new().with_max_iterations(0).with_statistics();
        let result = graph.is_label_minimal_with_config(config);
        assert_eq!(result.termination_reason, TerminationReason::MaxIterationsReached);
        assert!(!result.is_minimal);
        assert_eq!(counters(result.stats.unwrap()), (1, 0, 0, 0, 1));
        assert_eq!(graph.to_state(), before);
    }
}

#[test]
fn test_zero_cap_on_empty_graph() {
    let mut graph = TemporalGraph::new();
    let result =
        graph.is_label_minimal_with_config(MinimizationConfig::new().with_max_iterations(0));
    assert_eq!(result.termination_reason, TerminationReason::MaxIterationsReached);
    assert!(!result.is_minimal);
    assert!(result.stats.is_none());
}

#[test]
fn test_cap_of_one_makes_no_move() {
    let mut graph = graph_of(&[(0, 1, 0), (0, 1, 10), (1, 2, 5)]);
    let before = graph.to_state();
    let config = MinimizationConfig::new().with_max_iterations(1).with_statistics();
    let result = graph.is_label_minimal_with_config(config);
    assert_eq!(result.termination_reason, TerminationReason::MaxIterationsReached);
    assert_eq!(counters(result.stats.unwrap()), (1, 0, 0, 0, 1));
    assert_eq!(graph.to_state(), before);
}

#[test]
fn test_cap_of_two_makes_one_move() {
    let mut graph = graph_of(&[(0, 1, 0), (0, 1, 10), (1, 2, 5)]);
    let config = MinimizationConfig::new().with_max_iterations(2).with_statistics();
    let result = graph.is_label_minimal_with_config(config);
    assert_eq!(result.termination_reason, TerminationReason::MaxIterationsReached);
    assert!(!result.is_minimal);
    assert_eq!(counters(result.stats.unwrap()), (2, 1, 0, 0, 2));
    assert_eq!(graph.to_state(), graph_of(&[(0, 1, 10), (0, 2, 0), (1, 2, 5)]).to_state());
}

#[test]
fn test_cycle_back_to_initial_state_is_minimal() {
    let edges = [(0, 1, 1), (0, 1, 4), (0, 2, 4), (1, 2, 3)];
    let mut graph = graph_of(&edges);
    let before = graph.to_state();
    let config = MinimizationConfig::new().with_max_iterations(100).with_statistics();
    let result = graph.is_label_minimal_with_config(config);
    assert_eq!(result.termination_reason, TerminationReason::CycleDetected);
    assert!(result.is_minimal);
    assert_eq!(counters(result.stats.unwrap()), (2, 2, 0, 0, 2));
    assert_eq!(graph.to_state(), before);

    let mut graph = graph_of(&edges);
    assert!(graph.is_label_minimal());
}

#[test]
fn test_cycle_with_successful_transfer() {
    let mut graph = graph_of(&[(1, 2, 6), (0, 2, 6), (0, 1, 4), (2, 0, 2), (2, 1, 5)]);
    let config = MinimizationConfig::new().with_max_iterations(100).with_statistics();
    let result = graph.is_label_minimal_with_config(config);
    assert_eq!(result.termination_reason, TerminationReason::CycleDetected);
    assert!(result.is_minimal);
    assert_eq!(counters(result.stats.unwrap()), (3, 3, 1, 0, 3));
    assert_eq!(
        graph.to_state(),
        graph_of(&[(0, 1, 4), (0, 1, 5), (0, 2, 6), (1, 2, 2), (1, 2, 6)]).to_state()
    );
}

#[test]
fn test_cycle_is_cut_short_by_cap() {
    let mut graph = graph_of(&[(0, 1, 1), (0, 1, 4), (0, 2, 4), (1, 2, 3)]);
    let result =
        graph.is_label_minimal_with_config(MinimizationConfig::new().with_max_iterations(2));
    assert_eq!(result.termination_reason, TerminationReason::MaxIterationsReached);
    assert!(!result.is_minimal);
    assert!(result.stats.is_none());
}

#[test]
fn test_no_move_left_is_not_minimal() {
    let edges = [(0, 1, 7), (1, 2, 1), (1, 2, 4), (2, 3, 2), (2, 3, 5), (0, 3, 3), (0, 3, 6)];
    let expected = graph_of(&[
        (0, 1, 7),
        (0, 2, 3),
        (0, 3, 2),
        (1, 2, 1),
        (1, 3, 6),
        (2, 3, 4),
        (2, 3, 5),
    ])
    .to_state();
    for config in [
        MinimizationConfig::new().with_max_iterations(1000).with_statistics(),
        MinimizationConfig::new().unlimited_iterations().with_statistics().verbose(),
    ] {
        let mut graph = graph_of(&edges);
        let result = graph.is_label_minimal_with_config(config);
        assert_eq!(result.termination_reason, TerminationReason::UselessLabelFound);
        assert!(!result.is_minimal);
        assert_eq!(counters(result.stats.unwrap()), (9, 8, 3, 0, 9));
        assert_eq!(graph.to_state(), expected);
        assert!(graph.find_wrappable_edge().is_none());
    }
    let mut graph = graph_of(&edges);
    assert!(!graph.is_label_minimal());
}

#[test]
fn test_capped_run_stops_in_the_middle() {
    let mut graph =
        graph_of(&[(0, 1, 7), (1, 2, 1), (1, 2, 4), (2, 3, 2), (2, 3, 5), (0, 3, 3), (0, 3, 6)]);
    let config = MinimizationConfig::new().with_max_iterations(3).with_statistics();
    let result = graph.is_label_minimal_with_config(config);
    assert_eq!(result.termination_reason, TerminationReason::MaxIterationsReached);
    assert_eq!(counters(result.stats.unwrap()), (3, 2, 0, 0, 3));
    assert_eq!(
        graph.to_state(),
        graph_of(&[(0, 1, 7), (0, 2, 3), (0, 3, 6), (1, 2, 4), (1, 3, 1), (2, 3, 2), (2, 3, 5)])
            .to_state()
    );
}

#[test]
fn test_statistics_only_when_asked_for() {
    let mut graph = graph_of(&[(0, 1, 0), (0, 1, 10), (1, 2, 5)]);
    let result = graph.is_label_minimal_with_config(MinimizationConfig::new());
    assert_eq!(result.termination_reason, TerminationReason::UselessLabelFound);
    assert!(result.stats.is_none());
}

#[test]
fn test_graph_without_wrappable_edge() {
    let mut graph = graph_of(&[(0, 1, 5), (1, 2, 3)]);
    let before = graph.to_state();
    let result = graph.is_label_minimal_with_config(MinimizationConfig::new().with_statistics());
    assert_eq!(result.termination_reason, TerminationReason::UselessLabelFound);
    assert!(!result.is_minimal);
    assert_eq!(counters(result.stats.unwrap()), (1, 0, 0, 0, 1));
    assert_eq!(graph.to_state(), before);
}

#[test]
fn test_loop_at_shared_vertex() {
    let mut graph = graph_of(&[(0, 1, 0), (0, 1, 10), (1, 1, 5)]);
    let result = graph.is_label_minimal_with_config(MinimizationConfig::new().with_statistics());
    assert_eq!(result.termination_reason, TerminationReason::UselessLabelFound);
    assert_eq!(counters(result.stats.unwrap()), (2, 1, 0, 0, 2));
    assert_eq!(graph.to_state(), graph_of(&[(0, 1, 10), (1, 1, 5)]).to_state());
}

#[test]
fn test_minimizer_run() {
    let mut graph = graph_of(&[(0, 1, 1), (0, 1, 4), (0, 2, 4), (1, 2, 3)]);
    let mut minimizer = LabelMinimizer::new(&mut graph);
    let result = minimizer.run();
    assert!(result.is_minimal);
    assert_eq!(result.termination_reason, TerminationReason::CycleDetected);
    assert!(result.stats.is_none());
    assert_eq!(minimizer.seen_states.len(), 2);
    assert_eq!(minimizer.stats.iterations, 2);
}

#[test]
fn test_steps_report_moves() {
    let mut graph = graph_of(&[(0, 1, 0), (0, 1, 10), (1, 2, 5)]);
    let config = MinimizationConfig::new().with_statistics();
    let mut minimizer = LabelMinimizer::with_config(&mut graph, config);
    minimizer.start();
    assert!(minimizer.has_seen_current_state());
    assert!(!minimizer.should_terminate_iterations());
    assert_eq!(minimizer.find_wrappable_edge(), Some((0, 1)));
    assert_eq!(minimizer.find_min_incident_in_range(0, 1), Some((2, 1, 5)));

    let report = minimizer.step();
    assert!(report.finished.is_none());
    let applied = report.applied.unwrap();
    assert_eq!(applied.edge, (0, 1));
    assert_eq!(applied.neighbor, 2);
    assert_eq!(applied.common, 1);
    assert_eq!(applied.time, 5);
    assert_eq!(applied.other_endpoint, 0);
    assert_eq!(applied.transferred, 0);
    assert_eq!(applied.tmin, 0);
    assert_eq!(minimizer.seen_states.len(), 2);

    let report = minimizer.step();
    assert!(report.applied.is_none());
    let result = report.finished.unwrap();
    assert_eq!(result.termination_reason, TerminationReason::UselessLabelFound);
    assert!(!result.is_minimal);
    assert_eq!(counters(result.stats.unwrap()), (2, 1, 0, 0, 2));
}

#[test]
fn test_step_with_transfer() {
    // the wrappable edge {0,1} is wrapped with the timestamp of {1,3}; vertex 0 is the
    // far endpoint, and the transfer moves the timestamp of {0,2} onto {2,1}
    let mut graph = graph_of(&[(0, 1, 0), (0, 1, 20), (1, 3, 5), (0, 2, 10)]);
    let mut minimizer = LabelMinimizer::with_config(
        &mut graph,
        MinimizationConfig::new().with_statistics(),
    );
    minimizer.start();
    let applied = minimizer.step().applied.unwrap();
    assert_eq!(applied.edge, (0, 1));
    assert_eq!((applied.neighbor, applied.common, applied.time), (3, 1, 5));
    assert_eq!(applied.other_endpoint, 0);
    assert_eq!(applied.transferred, 1);
    assert_eq!(applied.tmin, 0);
    assert_eq!(minimizer.stats.transfers_attempted, 1);
    assert_eq!(minimizer.stats.transfers_successful, 1);
    assert_eq!(
        graph.to_state(),
        graph_of(&[(0, 1, 20), (1, 3, 5), (1, 2, 10), (0, 3, 0)]).to_state()
    );
}

#[test]
fn test_transfer_labels_counts_only_with_statistics() {
    let edges = [(0, 1, 0), (0, 1, 20), (0, 2, 10)];
    let mut graph = graph_of(&edges);
    let mut minimizer = LabelMinimizer::new(&mut graph);
    assert_eq!(minimizer.transfer_labels(1, 0), 1);
    assert_eq!(minimizer.stats.transfers_attempted, 0);
    assert_eq!(minimizer.stats.transfers_successful, 0);

    let mut graph = graph_of(&edges);
    let mut minimizer =
        LabelMinimizer::with_config(&mut graph, MinimizationConfig::new().with_statistics());
    assert_eq!(minimizer.transfer_labels(0, 1), 0);
    assert_eq!(minimizer.stats.transfers_attempted, 1);
    assert_eq!(minimizer.stats.transfers_successful, 0);
    assert_eq!(minimizer.transfer_labels(1, 0), 1);
    assert_eq!(minimizer.stats.transfers_attempted, 2);
    assert_eq!(minimizer.stats.transfers_successful, 1);
    assert!(!minimizer.has_seen_current_state());
    minimizer.record_current_state();
    assert!(minimizer.has_seen_current_state());
    assert_eq!(minimizer.stats.states_visited, 1);
}

#[test]
fn test_second_run_goes_on_counting() {
    let mut graph = graph_of(&[(0, 1, 0), (0, 1, 10), (1, 2, 5)]);
    let mut minimizer = LabelMinimizer::with_config(
        &mut graph,
        MinimizationConfig::new().with_statistics(),
    );
    let first = minimizer.run();
    assert_eq!(counters(first.stats.unwrap()), (2, 1, 0, 0, 2));
    let second = minimizer.run();
    assert_eq!(second.termination_reason, TerminationReason::UselessLabelFound);
    assert_eq!(counters(second.stats.unwrap()), (3, 1, 0, 0, 1));
}
