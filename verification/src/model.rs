//! Shared value types of the analysis results: pipeline stages, severities,
//! artifact kinds and locators, and correlation relations.
use vstd::prelude::*;

verus! {

/// The five pipeline stages. Analysers declare which stage they belong to.
#[derive(Debug, Clone, Copy, PartialEq, Eq, Structural, Hash)]
pub enum Stage {
    TypeId,
    Structure,
    Feature,
    Extract,
    Correlate,
}

impl Stage {
    /// The stage's number in the pipeline, from 1 to 5.
    pub open spec fn number_spec(self) -> u8 {
        match self {
            Stage::TypeId => 1,
            Stage::Structure => 2,
            Stage::Feature => 3,
            Stage::Extract => 4,
            Stage::Correlate => 5,
        }
    }

    /// The stage's number in the pipeline, from 1 to 5.
    pub fn number(&self) -> (n: u8)
        ensures
            n == self.number_spec(),
    {
        match self {
            Stage::TypeId => 1,
            Stage::Structure => 2,
            Stage::Feature => 3,
            Stage::Extract => 4,
            Stage::Correlate => 5,
        }
    }
}

/// How serious a finding is, in increasing order.
#[derive(Debug, Clone, Copy, PartialEq, Eq, Structural, PartialOrd, Ord)]
pub enum Severity {
    Info,
    Low,
    Medium,
    High,
    Critical,
}

/// What an artifact holds.
#[derive(Debug, Clone, Copy, PartialEq, Eq, Structural)]
pub enum ArtifactKind {
    ExtractedFile,
    StringsDump,
    CarvedChild,
    DecodedBlob,
    Spectrogram,
    BitPlane,
    Preview,
    Other,
}

/// Where an artifact's bytes live: a locator, never the bytes.
#[derive(Debug, Clone)]
pub enum ArtifactStore {
    InMemory,
    TempFile(String),
    DbBlob(i64),
}

/// How two analysed objects are related.
#[derive(Debug, Clone, Copy, PartialEq, Eq, Structural)]
pub enum Relation {
    ChildOf,
    DecodesTo,
    SharesString,
    ReferencesHash,
    EmbeddedIn,
}

} // verus!
