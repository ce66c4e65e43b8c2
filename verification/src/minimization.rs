//! The label minimiser: it applies wrap and transfer moves to a graph until
//! a state repeats (the graph is minimal), no move is left (it is not), or
//! the iteration cap is reached (no verdict).
use crate::graph::TemporalGraph;
use crate::model::{edge_key, lemma_transfer_keeps_edge, GraphView, Label, WrapMove};
use crate::model::{Candidate, TimeStep, VertexId};
use crate::state::{is_state_of, GraphState};
use vstd::prelude::*;

verus! {

/// Configuration of a minimisation run.
#[derive(Debug, Clone, Copy)]
pub struct MinimizationConfig {
    /// The iteration cap; `None` for a run without cap.
    pub max_iterations: Option<usize>,
    /// Whether the result carries the statistics of the run.
    pub track_statistics: bool,
    /// Whether the caller wants a trace of the run. The library itself
    /// prints nothing; the flag is for the program that drives it.
    pub verbose: bool,
}

impl Default for MinimizationConfig {
    fn default() -> (config: Self)
        ensures
            config == default_config(),
    {
        MinimizationConfig { max_iterations: Some(10_000), track_statistics: false, verbose: false }
    }
}

impl MinimizationConfig {
    /// The default configuration: a cap of 10 000 iterations, no statistics,
    /// no trace.
    pub fn new() -> (config: Self)
        ensures
            config == default_config(),
    {
        MinimizationConfig { max_iterations: Some(10_000), track_statistics: false, verbose: false }
    }

    /// The same configuration with the iteration cap `max`.
    pub fn with_max_iterations(self, max: usize) -> (config: Self)
        ensures
            config == (MinimizationConfig { max_iterations: Some(max), ..self }),
    {
        MinimizationConfig { max_iterations: Some(max), ..self }
    }

    /// The same configuration without iteration cap.
    pub fn unlimited_iterations(self) -> (config: Self)
        ensures
            config == (MinimizationConfig { max_iterations: None, ..self }),
    {
        MinimizationConfig { max_iterations: None, ..self }
    }

    /// The same configuration with statistics.
    pub fn with_statistics(self) -> (config: Self)
        ensures
            config == (MinimizationConfig { track_statistics: true, ..self }),
    {
        MinimizationConfig { track_statistics: true, ..self }
    }

    /// The same configuration with the trace requested.
    pub fn verbose(self) -> (config: Self)
        ensures
            config == (MinimizationConfig { verbose: true, ..self }),
    {
        MinimizationConfig { verbose: true, ..self }
    }
}

/// Counters of a minimisation run.
#[derive(Debug, Clone, Copy)]
pub struct MinimizationStats {
    /// The number of iterations begun, the one that ended the run included.
    pub iterations: usize,
    /// The number of transfers made; counted only with statistics on.
    pub transfers_attempted: usize,
    /// The number of transfers that moved at least one timestamp; counted
    /// only with statistics on.
    pub transfers_successful: usize,
    /// Reserved; no part of the run counts it.
    pub useless_labels_found: usize,
    /// The number of distinct states recorded, the initial one included.
    pub states_visited: usize,
}

impl Default for MinimizationStats {
    fn default() -> (stats: Self)
        ensures
            stats == MinimizationStats::zero(),
    {
        MinimizationStats {
            iterations: 0,
            transfers_attempted: 0,
            transfers_successful: 0,
            useless_labels_found: 0,
            states_visited: 0,
        }
    }
}

impl MinimizationStats {
    /// All counters at zero.
    pub open spec fn zero() -> MinimizationStats {
        MinimizationStats {
            iterations: 0,
            transfers_attempted: 0,
            transfers_successful: 0,
            useless_labels_found: 0,
            states_visited: 0,
        }
    }

    /// Counters that a run can go on from without overflow, given the
    /// number of states recorded so far.
    pub open spec fn bounded_by(self, recorded: nat) -> bool {
        &&& self.iterations <= recorded
        &&& self.states_visited <= recorded
        &&& self.transfers_successful <= self.transfers_attempted <= self.iterations
    }

    pub fn new() -> (stats: Self)
        ensures
            stats == MinimizationStats::zero(),
    {
        MinimizationStats {
            iterations: 0,
            transfers_attempted: 0,
            transfers_successful: 0,
            useless_labels_found: 0,
            states_visited: 0,
        }
    }
}

/// Why a run ended.
#[derive(Debug, Clone, Copy, PartialEq, Eq, Structural)]
pub enum TerminationReason {
    /// A state was reached that had been seen before: the graph is minimal.
    CycleDetected,
    /// No move was left: the graph is not minimal.
    UselessLabelFound,
    /// The iteration cap was reached: no verdict.
    MaxIterationsReached,
}

/// The result of a run.
#[derive(Debug, Clone, Copy)]
pub struct MinimizationResult {
    /// Whether the graph was found minimal.
    pub is_minimal: bool,
    /// The counters of the run, with statistics on.
    pub stats: Option<MinimizationStats>,
    pub termination_reason: TerminationReason,
}

/// What one iteration did: the move it made, if it made one, and the result
/// of the run, if the iteration ended it.
#[derive(Debug, Clone, Copy)]
pub struct StepReport {
    pub applied: Option<WrapMove>,
    pub finished: Option<MinimizationResult>,
}

/// Whether the iteration counter `iterations` has reached the cap.
pub open spec fn cap_reached(config: MinimizationConfig, iterations: usize) -> bool {
    config.max_iterations is Some && iterations >= config.max_iterations.unwrap()
}

/// The result of a run that ends for `reason` with counters `stats`.
pub open spec fn verdict(
    config: MinimizationConfig,
    stats: MinimizationStats,
    reason: TerminationReason,
) -> MinimizationResult {
    MinimizationResult {
        is_minimal: reason == TerminationReason::CycleDetected,
        stats: if config.track_statistics {
            Some(stats)
        } else {
            None
        },
        termination_reason: reason,
    }
}

/// The model of a minimiser between two iterations: the graph, the label
/// sets of the states recorded, and the counters.
pub struct RunState {
    pub graph: GraphView,
    pub seen: Set<Set<Label>>,
    pub stats: MinimizationStats,
}

impl RunState {
    /// The state in which a run begins: the state of the graph is recorded
    /// and counts as the first state visited.
    pub open spec fn start(self) -> RunState {
        RunState {
            graph: self.graph,
            seen: self.seen.insert(self.graph.labels),
            stats: MinimizationStats { states_visited: 1, ..self.stats },
        }
    }

    /// One iteration: the state after it, and the result if it ends the run.
    /// The iteration is counted first. With the cap reached, the run ends
    /// without verdict. With no wrappable edge, it ends with the graph not
    /// minimal. Else the move is made; the run ends with the graph minimal
    /// if the new state was recorded before, and goes on with the new state
    /// recorded if not.
    pub open spec fn round(self, config: MinimizationConfig) -> (RunState, Option<
        MinimizationResult,
    >) {
        let counted = MinimizationStats {
            iterations: (self.stats.iterations + 1) as usize,
            ..self.stats
        };
        if cap_reached(config, counted.iterations) {
            (
                RunState { stats: counted, ..self },
                Some(verdict(config, counted, TerminationReason::MaxIterationsReached)),
            )
        } else {
            match self.graph.next_move() {
                None => (
                    RunState { stats: counted, ..self },
                    Some(verdict(config, counted, TerminationReason::UselessLabelFound)),
                ),
                Some(m) => {
                    let graph = self.graph.apply(m);
                    let updated = if config.track_statistics {
                        MinimizationStats {
                            transfers_attempted: (counted.transfers_attempted + 1) as usize,
                            transfers_successful: if m.transferred > 0 {
                                (counted.transfers_successful + 1) as usize
                            } else {
                                counted.transfers_successful
                            },
                            ..counted
                        }
                    } else {
                        counted
                    };
                    if self.seen.contains(graph.labels) {
                        (
                            RunState { graph, seen: self.seen, stats: updated },
                            Some(verdict(config, updated, TerminationReason::CycleDetected)),
                        )
                    } else {
                        (
                            RunState {
                                graph,
                                seen: self.seen.insert(graph.labels),
                                stats: MinimizationStats {
                                    states_visited: (updated.states_visited + 1) as usize,
                                    ..updated
                                },
                            },
                            None,
                        )
                    }
                },
            }
        }
    }

    /// The state after `k` iterations.
    pub open spec fn after_rounds(self, config: MinimizationConfig, k: nat) -> RunState
        decreases k,
    {
        if k == 0 {
            self
        } else {
            self.after_rounds(config, (k - 1) as nat).round(config).0
        }
    }

    /// Whether a run from this state goes through `n` iterations that do not
    /// end it and ends in the next one.
    pub open spec fn ends_after(self, config: MinimizationConfig, n: nat) -> bool {
        &&& forall|k: nat|
            k < n ==> (#[trigger] self.after_rounds(config, k)).round(config).1 is None
        &&& self.after_rounds(config, n).round(config).1 is Some
    }

    /// Whether a run that begins in this state makes `n` iterations that do
    /// not end it and ends in the next one with `result`, in state `end`.
    pub open spec fn runs_to(
        self,
        config: MinimizationConfig,
        n: nat,
        result: MinimizationResult,
        end: RunState,
    ) -> bool {
        &&& self.start().ends_after(config, n)
        &&& result == self.start().result_after(config, n)
        &&& end == self.start().final_after(config, n)
    }

    /// The result of a run from this state that ends after `n` iterations.
    pub open spec fn result_after(self, config: MinimizationConfig, n: nat) -> MinimizationResult {
        self.after_rounds(config, n).round(config).1.unwrap()
    }

    /// The state in which a run from this state ends after `n` iterations.
    pub open spec fn final_after(self, config: MinimizationConfig, n: nat) -> RunState {
        self.after_rounds(config, n).round(config).0
    }
}

/// The label sets that the recorded states stand for.
pub open spec fn seen_set(seen: Seq<GraphState>) -> Set<Set<Label>> {
    Set::new(
        |labels: Set<Label>|
            exists|i: int| 0 <= i < seen.len() && is_state_of((#[trigger] seen[i])@, labels),
    )
}

/// Recording one more state adds its label set to those seen.
pub proof fn lemma_seen_push(seen: Seq<GraphState>, state: GraphState, labels: Set<Label>)
    requires
        is_state_of(state@, labels),
    ensures
        seen_set(seen.push(state)) == seen_set(seen).insert(labels),
{
    let after = seen.push(state);
    assert forall|ls: Set<Label>| seen_set(after).contains(ls) <==> seen_set(seen).insert(
        labels,
    ).contains(ls) by {
        if seen_set(after).contains(ls) {
            let i = choose|i: int|
                0 <= i < after.len() && is_state_of((#[trigger] after[i])@, ls);
            if i < seen.len() {
                assert(is_state_of(seen[i]@, ls));
            }
        }
        if seen_set(seen).contains(ls) {
            let i = choose|i: int| 0 <= i < seen.len() && is_state_of((#[trigger] seen[i])@, ls);
            assert(is_state_of(after[i]@, ls));
        }
        if ls == labels {
            assert(is_state_of(after[seen.len() as int]@, ls));
        }
    }
    assert(seen_set(after) =~= seen_set(seen).insert(labels));
}

/// The minimiser: a graph that it alone may change while it lives, the
/// configuration, the counters and the states recorded so far.
pub struct LabelMinimizer<'a> {
    pub graph: &'a mut TemporalGraph,
    pub config: MinimizationConfig,
    pub stats: MinimizationStats,
    pub seen_states: Vec<GraphState>,
}

impl<'a> LabelMinimizer<'a> {
    /// The graph is well formed and the counters are bounded by the number
    /// of states recorded.
    pub open spec fn wf(&self) -> bool {
        self.graph.wf() && self.stats.bounded_by(self.seen_states@.len())
    }

    /// Whether an iteration can be made: a run has begun, so that more
    /// states are recorded than iterations were counted.
    pub open spec fn ready(&self) -> bool {
        self.wf() && self.stats.iterations < self.seen_states@.len()
    }

    /// The model of the minimiser.
    pub open spec fn model(&self) -> RunState {
        RunState { graph: self.graph@, seen: seen_set(self.seen_states@), stats: self.stats }
    }

    /// A minimiser for `graph` with the default configuration.
    pub fn new(graph: &'a mut TemporalGraph) -> (minimizer: Self)
        requires
            old(graph).wf(),
        ensures
            minimizer.wf(),
            *minimizer.graph == *old(graph),
            *final(minimizer.graph) == *final(graph),
            minimizer.config == default_config(),
            minimizer.stats == MinimizationStats::zero(),
            minimizer.seen_states@ == Seq::<GraphState>::empty(),
    {
        LabelMinimizer {
            graph,
            config: MinimizationConfig::new(),
            stats: MinimizationStats::new(),
            seen_states: Vec::new(),
        }
    }

    /// A minimiser for `graph` with configuration `config`.
    pub fn with_config(graph: &'a mut TemporalGraph, config: MinimizationConfig) -> (minimizer:
        Self)
        requires
            old(graph).wf(),
        ensures
            minimizer.wf(),
            *minimizer.graph == *old(graph),
            *final(minimizer.graph) == *final(graph),
            minimizer.config == config,
            minimizer.stats == MinimizationStats::zero(),
            minimizer.seen_states@ == Seq::<GraphState>::empty(),
    {
        LabelMinimizer { graph, config, stats: MinimizationStats::new(), seen_states: Vec::new() }
    }

    /// Whether the state of the graph has been recorded.
    pub fn has_seen_current_state(&self) -> (seen: bool)
        requires
            self.graph.wf(),
        ensures
            seen == self.model().seen.contains(self.model().graph.labels),
    {
        self.graph.has_seen_state(&self.seen_states)
    }

    /// Records the state of the graph and counts it as visited.
    pub fn record_current_state(&mut self)
        requires
            old(self).graph.wf(),
            old(self).stats.states_visited <= old(self).seen_states@.len(),
        ensures
            *final(final(self).graph) == *final(old(self).graph),
            *final(self).graph == *old(self).graph,
            final(self).config == old(self).config,
            final(self).seen_states@.len() == old(self).seen_states@.len() + 1,
            final(self).seen_states@.drop_last() == old(self).seen_states@,
            is_state_of(final(self).seen_states@.last()@, old(self).graph@.labels),
            seen_set(final(self).seen_states@) == seen_set(old(self).seen_states@).insert(
                old(self).graph@.labels,
            ),
            final(self).stats == (MinimizationStats {
                states_visited: (old(self).stats.states_visited + 1) as usize,
                ..old(self).stats
            }),
    {
        let state = self.graph.to_state();
        proof {
            lemma_seen_push(self.seen_states@, state, self.graph@.labels);
        }
        self.seen_states.push(state);
        assert(self.seen_states@.len() == self.seen_states.len());
        assert(self.seen_states@.drop_last() =~= old(self).seen_states@);
        self.stats.states_visited += 1;
    }

    /// Whether the iteration counter has reached the iteration cap.
    pub fn should_terminate_iterations(&self) -> (reached: bool)
        ensures
            reached == cap_reached(self.config, self.stats.iterations),
    {
        match self.config.max_iterations {
            Some(max) => self.stats.iterations >= max,
            None => false,
        }
    }

    /// The wrappable edge of the graph with the smallest key, if any.
    pub fn find_wrappable_edge(&self) -> (found: Option<(VertexId, VertexId)>)
        requires
            self.graph.wf(),
        ensures
            found == self.model().graph.wrappable_edge(),
            found is Some ==> self.model().graph.is_first_wrappable(found.unwrap()),
    {
        self.graph.find_wrappable_edge()
    }

    /// The preferred wrap candidate for edge `{u, v}` of the graph, if any.
    pub fn find_min_incident_in_range(&self, u: VertexId, v: VertexId) -> (found: Option<
        Candidate,
    >)
        requires
            self.graph.wf(),
        ensures
            found == self.model().graph.min_incident(u, v),
            found is Some ==> self.model().graph.is_min_candidate(u, v, found.unwrap()),
    {
        self.graph.find_min_incident_in_range(u, v)
    }

    /// Transfers timestamps through edge `{u, v}` of the graph and, with
    /// statistics on, counts the transfer, and counts it as successful if
    /// it moved a timestamp. Returns the number of timestamps moved.
    pub fn transfer_labels(&mut self, u: VertexId, v: VertexId) -> (count: usize)
        requires
            old(self).graph.wf(),
            old(self).stats.transfers_successful <= old(self).stats.transfers_attempted
                < usize::MAX,
        ensures
            *final(final(self).graph) == *final(old(self).graph),
            final(self).graph.wf(),
            final(self).graph@ == old(self).graph@.after_transfer(u, v),
            count == old(self).graph@.moved(u, v).len(),
            final(self).config == old(self).config,
            final(self).seen_states == old(self).seen_states,
            final(self).stats == if old(self).config.track_statistics {
                MinimizationStats {
                    transfers_attempted: (old(self).stats.transfers_attempted + 1) as usize,
                    transfers_successful: if count > 0 {
                        (old(self).stats.transfers_successful + 1) as usize
                    } else {
                        old(self).stats.transfers_successful
                    },
                    ..old(self).stats
                }
            } else {
                old(self).stats
            },
    {
        let transferred = self.graph.transfer_labels_through_edge(u, v);
        if self.config.track_statistics {
            self.stats.transfers_attempted += 1;
            if transferred > 0 {
                self.stats.transfers_successful += 1;
            }
        }
        transferred
    }

    /// Makes the next move on the graph, if there is one: the transfer
    /// through the wrappable edge, then the wrap of its smallest timestamp.
    /// A move is never left half made: a wrappable edge has a candidate,
    /// and the transfer leaves it its timestamps, the smallest among them.
    pub fn apply_move(&mut self) -> (applied: Option<WrapMove>)
        requires
            old(self).graph.wf(),
            old(self).stats.transfers_successful <= old(self).stats.transfers_attempted
                < usize::MAX,
        ensures
            *final(final(self).graph) == *final(old(self).graph),
            final(self).graph.wf(),
            applied == old(self).graph@.next_move(),
            final(self).graph@ == match applied {
                Some(m) => old(self).graph@.apply(m),
                None => old(self).graph@,
            },
            final(self).config == old(self).config,
            final(self).seen_states == old(self).seen_states,
            final(self).stats == match applied {
                Some(m) => if old(self).config.track_statistics {
                    MinimizationStats {
                        transfers_attempted: (old(self).stats.transfers_attempted + 1) as usize,
                        transfers_successful: if m.transferred > 0 {
                            (old(self).stats.transfers_successful + 1) as usize
                        } else {
                            old(self).stats.transfers_successful
                        },
                        ..old(self).stats
                    }
                } else {
                    old(self).stats
                },
                None => old(self).stats,
            },
    {
        let ghost g = self.graph@;
        proof {
            self.graph.lemma_view_wf();
        }
        let (u, v) = match self.find_wrappable_edge() {
            Some(edge) => edge,
            None => {
                return None;
            },
        };
        let (w, x, t) = match self.find_min_incident_in_range(u, v) {
            Some(candidate) => candidate,
            None => {
                return None;
            },
        };
        let other_endpoint = if x == u {
            v
        } else {
            u
        };
        let transferred = self.transfer_labels(x, other_endpoint);
        proof {
            assert(g.edge_keys().contains((u, v)));
            let r = choose|r: TimeStep| g.labels.contains((u, v, r));
            assert(edge_key(u, v) == (u, v));
            assert(edge_key(x, other_endpoint) == (u, v));
            assert(g.has_label(x, other_endpoint, r));
            lemma_transfer_keeps_edge(g, x, other_endpoint, r);
            assert(self.graph@.has_label(u, v, r));
        }
        let range = self.graph.get_edge_time_range(u, v);
        let tmin = range.unwrap().0;
        self.graph.add_edge(w, other_endpoint, tmin);
        let removed = self.graph.remove_edge_timestamp(u, v, tmin);
        assert(removed);
        Some(
            WrapMove {
                edge: (u, v),
                neighbor: w,
                common: x,
                time: t,
                other_endpoint,
                transferred,
                tmin,
            },
        )
    }

    /// The result of a run that ends now for `reason`.
    fn finish(&self, reason: TerminationReason) -> (result: MinimizationResult)
        ensures
            result == verdict(self.config, self.stats, reason),
    {
        MinimizationResult {
            is_minimal: match reason {
                TerminationReason::CycleDetected => true,
                _ => false,
            },
            stats: if self.config.track_statistics {
                Some(self.stats)
            } else {
                None
            },
            termination_reason: reason,
        }
    }

    /// Begins a run: records the state of the graph as the first state
    /// visited.
    pub fn start(&mut self)
        requires
            old(self).wf(),
        ensures
            *final(final(self).graph) == *final(old(self).graph),
            final(self).ready(),
            final(self).config == old(self).config,
            final(self).model() == old(self).model().start(),
    {
        self.stats.states_visited = 0;
        self.record_current_state();
    }

    /// Makes one iteration of a run that has begun.
    pub fn step(&mut self) -> (report: StepReport)
        requires
            old(self).ready(),
        ensures
            *final(final(self).graph) == *final(old(self).graph),
            final(self).wf(),
            final(self).config == old(self).config,
            final(self).model() == old(self).model().round(old(self).config).0,
            report.finished == old(self).model().round(old(self).config).1,
            report.applied == if cap_reached(
                old(self).config,
                (old(self).stats.iterations + 1) as usize,
            ) {
                None
            } else {
                old(self).graph@.next_move()
            },
            report.finished is None ==> final(self).ready() && final(self).seen_states@.len()
                == old(self).seen_states@.len() + 1,
    {
        assert(self.seen_states@.len() == self.seen_states.len());
        self.stats.iterations += 1;
        if self.should_terminate_iterations() {
            return StepReport {
                applied: None,
                finished: Some(self.finish(TerminationReason::MaxIterationsReached)),
            };
        }
        let applied = self.apply_move();
        if applied.is_none() {
            return StepReport {
                applied,
                finished: Some(self.finish(TerminationReason::UselessLabelFound)),
            };
        }
        if self.has_seen_current_state() {
            return StepReport {
                applied,
                finished: Some(self.finish(TerminationReason::CycleDetected)),
            };
        }
        self.record_current_state();
        StepReport { applied, finished: None }
    }

    /// Runs the minimiser to its end: begins a run and iterates until an
    /// iteration ends it.
    pub fn run(&mut self) -> (result: MinimizationResult)
        requires
            old(self).wf(),
        ensures
            *final(final(self).graph) == *final(old(self).graph),
            final(self).wf(),
            final(self).config == old(self).config,
            exists|n: nat| #[trigger]
                old(self).model().runs_to(old(self).config, n, result, final(self).model()),
    {
        self.start();
        let ghost begun = self.model();
        let ghost config = self.config;
        let ghost mut rounds: nat = 0;
        loop
            invariant
                *final(self.graph) == *final(old(self).graph),
                self.ready(),
                self.config == config,
                config == old(self).config,
                begun == old(self).model().start(),
                self.model() == begun.after_rounds(config, rounds),
                forall|k: nat|
                    k < rounds ==> (#[trigger] begun.after_rounds(config, k)).round(config).1
                        is None,
            decreases usize::MAX - self.seen_states.len(),
        {
            let report = self.step();
            match report.finished {
                Some(result) => {
                    proof {
                        assert(begun.ends_after(config, rounds));
                        assert(old(self).model().runs_to(config, rounds, result, self.model()));
                    }
                    return result;
                },
                None => {
                    proof {
                        rounds = rounds + 1;
                    }
                },
            }
        }
    }
}

impl TemporalGraph {
    /// Whether the graph is minimal, by a run with the default
    /// configuration. The run changes the graph.
    pub fn is_label_minimal(&mut self) -> (minimal: bool)
        requires
            old(self).wf(),
        ensures
            final(self).wf(),
            exists|n: nat, result: MinimizationResult, end: RunState| #[trigger]
                fresh_run(old(self)@).runs_to(default_config(), n, result, end) && minimal
                    == result.is_minimal && final(self)@ == end.graph,
    {
        let mut minimizer = LabelMinimizer::new(self);
        let ghost begin = minimizer.model();
        proof {
            assert(begin.seen =~= Set::<Set<Label>>::empty());
        }
        let result = minimizer.run();
        proof {
            let end = minimizer.model();
            let n = choose|n: nat| #[trigger] begin.runs_to(default_config(), n, result, end);
            assert(begin == fresh_run(old(self)@));
            assert(fresh_run(old(self)@).runs_to(default_config(), n, result, end));
        }
        result.is_minimal
    }

    /// Runs the minimiser with configuration `config` on the graph. The run
    /// changes the graph.
    pub fn is_label_minimal_with_config(&mut self, config: MinimizationConfig) -> (result:
        MinimizationResult)
        requires
            old(self).wf(),
        ensures
            final(self).wf(),
            exists|n: nat, end: RunState| #[trigger]
                fresh_run(old(self)@).runs_to(config, n, result, end) && final(self)@ == end.graph,
    {
        let mut minimizer = LabelMinimizer::with_config(self, config);
        let ghost begin = minimizer.model();
        proof {
            assert(begin.seen =~= Set::<Set<Label>>::empty());
        }
        let result = minimizer.run();
        proof {
            let end = minimizer.model();
            let n = choose|n: nat| #[trigger] begin.runs_to(config, n, result, end);
            assert(begin == fresh_run(old(self)@));
            assert(fresh_run(old(self)@).runs_to(config, n, result, end));
        }
        result
    }
}

/// The default configuration.
pub open spec fn default_config() -> MinimizationConfig {
    MinimizationConfig {
        max_iterations: Some(10_000usize),
        track_statistics: false,
        verbose: false,
    }
}

/// The model of a minimiser that was just made for a graph.
pub open spec fn fresh_run(graph: GraphView) -> RunState {
    RunState { graph, seen: Set::empty(), stats: MinimizationStats::zero() }
}

} // verus!
