//! Temporal graphs and the label-minimisation rewriting system.
//!
//! A temporal graph is an undirected graph whose edges carry finite sets of
//! integer timestamps ("labels"). The crate provides the graph data model,
//! its canonical state, the wrap and transfer moves, and the minimiser that
//! applies them until a state repeats, no move is left or the iteration cap
//! is reached. Around this core it reads and writes the text formats of
//! graphs, checks connectivity, and describes drawings of a graph as plain
//! data. Every executable function carries a contract stated over the
//! mathematical model in [`model`].
pub mod connectivity;
pub mod enumeration;
pub mod graph;
pub mod laws;
pub mod minimization;
pub mod model;
pub mod moves;
pub mod state;
pub mod text;
pub mod visualization;

pub use enumeration::{
    check_multigraph_parameters, parse_temporal_graph_line, parse_temporal_graphs,
    timestamp_count, timestamps_up_to, GenerateError, LineError, MultigraphLine, ParameterError,
    ParseError,
};
pub use graph::{TemporalEdge, TemporalGraph};
pub use minimization::{
    LabelMinimizer, MinimizationConfig, MinimizationResult, MinimizationStats, StepReport,
    TerminationReason,
};
pub use model::{GraphView, TimeStep, VertexId, WrapMove};
pub use state::GraphState;
pub use visualization::{edge_label, DotAttribute, DotEdge, DotGraph};
