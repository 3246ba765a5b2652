//! Node descriptors and the run-time environment handed to every node.
use vstd::prelude::*;
use crate::ai::AiConfig;

pub mod descriptor;

verus! {

/// The run-time environment handed to every node (AI configuration, default
/// output directory, external tool paths); also the persisted settings.
#[derive(Debug, Clone, Default)]
pub struct NodeEnv {
    pub ai: AiConfig,
    pub output_dir: String,
    /// External tool paths (python, tshark, 7z, ...), keyed by tool name; a
    /// later entry for a name overrides an earlier one.
    pub tools: Vec<(String, String)>,
}

} // verus!
