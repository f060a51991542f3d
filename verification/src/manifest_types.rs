//! Records describing a run: what kind of analysis, how it ended, and
//! which software and algorithm produced it.

use vstd::prelude::*;

verus! {

#[derive(Debug, Clone, Copy, PartialEq, Eq, Structural)]
pub enum RunKind {
    Route,
    RouteBatch,
    Od,
    Matrix,
    Accessibility,
    ServiceArea,
    ServiceAreaSequence,
    Betweenness,
    ScenarioBatch,
    Experiment,
    Simulation,
}

#[derive(Debug, Clone, Copy, PartialEq, Eq, Structural)]
pub enum RunStatus {
    Planned,
    Succeeded,
    Failed,
    NotImplemented,
}

#[derive(Debug, Clone)]
pub struct SoftwareInfo {
    pub executable: String,
    pub version: String,
    pub git_commit: Option<String>,
}

#[derive(Debug, Clone)]
pub struct AlgorithmInfo {
    pub engine: String,
    pub graph_model: String,
    pub acceleration: String,
}

#[derive(Debug, Clone)]
pub struct MethodsSummary {
    pub plain_language: String,
    pub locked_profile_hash: Option<String>,
    pub defaults_pack: Option<String>,
}

/// The algorithm record of a scaffold run manifest.
pub fn scaffold_algorithm() -> (r: AlgorithmInfo)
    ensures
        r.engine@ == "edge_based_exact_placeholder"@,
        r.graph_model@ == "directed_edge_graph"@,
        r.acceleration@ == "none"@,
{
    AlgorithmInfo {
        engine: "edge_based_exact_placeholder".to_owned(),
        graph_model: "directed_edge_graph".to_owned(),
        acceleration: "none".to_owned(),
    }
}

} // verus!
