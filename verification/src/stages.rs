//! Stages reported while datasets are imported and profiles compiled.

use vstd::prelude::*;

verus! {

/// The build state of a dataset.
#[derive(Debug, Clone, Copy, PartialEq, Eq, Structural)]
pub enum BuildStage {
    Registered,
    TopologyPending,
    TopologyReady,
    MetricsPending,
    MetricsReady,
}

/// A stage of a dataset import.
#[derive(Debug, Clone, Copy, PartialEq, Eq, Structural)]
pub enum DatasetImportStage {
    HashSource,
    ScanRoutableObjects,
    LoadNodeCoords,
    BuildTopology,
    BuildAcceleration,
    WriteTopologyBundle,
    WriteManifest,
    Complete,
}

pub open spec fn import_stage_label(stage: DatasetImportStage) -> Seq<char> {
    match stage {
        DatasetImportStage::HashSource => "Hash Source"@,
        DatasetImportStage::ScanRoutableObjects => "Scan Routable Objects"@,
        DatasetImportStage::LoadNodeCoords => "Load Node Coords"@,
        DatasetImportStage::BuildTopology => "Build Topology"@,
        DatasetImportStage::BuildAcceleration => "Build Acceleration"@,
        DatasetImportStage::WriteTopologyBundle => "Write Topology Bundle"@,
        DatasetImportStage::WriteManifest => "Write Dataset Manifest"@,
        DatasetImportStage::Complete => "Complete"@,
    }
}

impl DatasetImportStage {
    /// The stage's name as shown to users.
    pub fn label(self) -> (r: &'static str)
        ensures
            r@ == import_stage_label(self),
    {
        match self {
            DatasetImportStage::HashSource => "Hash Source",
            DatasetImportStage::ScanRoutableObjects => "Scan Routable Objects",
            DatasetImportStage::LoadNodeCoords => "Load Node Coords",
            DatasetImportStage::BuildTopology => "Build Topology",
            DatasetImportStage::BuildAcceleration => "Build Acceleration",
            DatasetImportStage::WriteTopologyBundle => "Write Topology Bundle",
            DatasetImportStage::WriteManifest => "Write Dataset Manifest",
            DatasetImportStage::Complete => "Complete",
        }
    }
}

/// A stage of a profile compilation.
#[derive(Debug, Clone, Copy, PartialEq, Eq, Structural)]
pub enum ProfileCompileStage {
    CompileEdgeMetrics,
    CompileAcceleration,
    Complete,
}

pub open spec fn compile_stage_label(stage: ProfileCompileStage) -> Seq<char> {
    match stage {
        ProfileCompileStage::CompileEdgeMetrics => "Compile Edge Metrics"@,
        ProfileCompileStage::CompileAcceleration => "Compile Acceleration"@,
        ProfileCompileStage::Complete => "Complete"@,
    }
}

impl ProfileCompileStage {
    /// The stage's name as shown to users.
    pub fn label(self) -> (r: &'static str)
        ensures
            r@ == compile_stage_label(self),
    {
        match self {
            ProfileCompileStage::CompileEdgeMetrics => "Compile Edge Metrics",
            ProfileCompileStage::CompileAcceleration => "Compile Acceleration",
            ProfileCompileStage::Complete => "Complete",
        }
    }
}

/// The kind of analysis a user runs.
#[derive(Debug, Clone, Copy, PartialEq, Eq, Structural)]
pub enum AnalysisMode {
    Route,
    Od,
    Matrix,
}

pub open spec fn analysis_label(mode: AnalysisMode) -> Seq<char> {
    match mode {
        AnalysisMode::Route => "Route"@,
        AnalysisMode::Od => "OD"@,
        AnalysisMode::Matrix => "Matrix"@,
    }
}

impl AnalysisMode {
    /// The mode's name as shown to users.
    pub fn label(self) -> (r: &'static str)
        ensures
            r@ == analysis_label(self),
    {
        match self {
            AnalysisMode::Route => "Route",
            AnalysisMode::Od => "OD",
            AnalysisMode::Matrix => "Matrix",
        }
    }
}

/// Remembers the last five-percent bucket reported for a stage.
#[derive(Debug, Clone, Copy, PartialEq, Eq, Structural)]
pub struct PercentReporter {
    pub last_bucket: Option<u32>,
}

impl PercentReporter {
    /// A reporter that has reported nothing yet.
    pub fn new() -> (r: Self)
        ensures
            r.last_bucket is None,
    {
        PercentReporter { last_bucket: None }
    }

    /// A reporter that takes the zero bucket as already reported.
    pub fn starting_at_zero() -> (r: Self)
        ensures
            r.last_bucket == Some(0u32),
    {
        PercentReporter { last_bucket: Some(0) }
    }
}

} // verus!
