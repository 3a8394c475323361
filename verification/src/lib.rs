//! A Bayesian peak caller for sequencing coverage data.
//!
//! The crate partitions a reference genome into fixed-width bins, counts
//! aligned reads per bin, optionally normalizes the counts against a
//! background control sample, scores bins with a negative-binomial
//! signal-versus-background model, and merges significant bins into
//! width-filtered peaks.
//!
//! Probabilities are carried as integers in parts per million (see
//! [`bam::PPM_SCALE`]); evaluating the negative-binomial densities is
//! floating-point work that lives with the calling program, which hands
//! each scored bin's posterior back to the verified pipeline.

pub mod bam;
pub mod bayesian;
pub mod cli;
pub mod error;
pub mod genome;
pub mod metrics;
pub mod peak_caller;
pub mod text;
pub mod utils;
