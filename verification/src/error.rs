//! Error taxonomy for the peak-calling pipeline.
//!
//! Parse and configuration failures are fatal and abort a run before any
//! partial output is produced; numerical degeneracy during scoring is
//! absorbed per bin by the scoring stage and never surfaces here.

use vstd::prelude::*;

verus! {

/// A fatal pipeline failure.
#[derive(Debug)]
pub enum PipelineError {
    /// Malformed input data: a non-numeric chromosome length, or an input
    /// that yields an empty chromosome catalog.
    Parse(String),
    /// A configuration value outside its valid domain, detected before the
    /// pipeline runs.
    Config(String),
}

impl PipelineError {
    /// The human-readable cause carried by this error.
    pub fn message(&self) -> (m: &String)
        ensures
            m@ == match self {
                PipelineError::Parse(s) => s@,
                PipelineError::Config(s) => s@,
            },
    {
        match self {
            PipelineError::Parse(s) => s,
            PipelineError::Config(s) => s,
        }
    }
}

} // verus!
