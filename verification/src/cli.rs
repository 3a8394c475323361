//! The run's configuration, as plain validated values.  Turning command
//! line flags into a [`Cli`] is the calling program's business; every
//! value the pipeline consumes is checked here before it runs.

use vstd::prelude::*;

use crate::bam::PPM_SCALE;
use crate::error::PipelineError;

verus! {

/// Configuration of one peak-calling run.
#[derive(Debug)]
pub struct Cli {
    /// Path of the treatment alignment file.
    pub bam: String,
    /// Path of the optional background control alignment file.
    pub control: Option<String>,
    /// Path of an optional chromosome-size table; without one the catalog
    /// comes from the alignment file's header.
    pub chromsize: Option<String>,
    /// Maximum gap between merged bins.
    pub mdist: u32,
    /// Minimum raw reads for a bin to be scored.
    pub minreads: u32,
    /// Posterior probability threshold, in parts per million.
    pub posterior_threshold_ppm: u32,
    /// Bin width.
    pub step: u32,
    /// Minimum peak width.
    pub minwidth: u32,
    /// Broad mode: a coarser fixed bin width, nothing else.
    pub broad: bool,
    pub verbose: bool,
    pub metrics_file: bool,
}

impl Cli {
    /// The domain the pipeline assumes: a positive bin width and a
    /// threshold that is a probability.
    pub open spec fn valid(&self) -> bool {
        self.step >= 1 && self.posterior_threshold_ppm <= PPM_SCALE
    }

    /// An explicit, verified copy of the configuration.
    pub fn duplicate(&self) -> (r: Cli)
        ensures
            r == *self,
    {
        Cli {
            bam: self.bam.clone(),
            control: match &self.control {
                Some(c) => Some(c.clone()),
                None => None,
            },
            chromsize: match &self.chromsize {
                Some(c) => Some(c.clone()),
                None => None,
            },
            mdist: self.mdist,
            minreads: self.minreads,
            posterior_threshold_ppm: self.posterior_threshold_ppm,
            step: self.step,
            minwidth: self.minwidth,
            broad: self.broad,
            verbose: self.verbose,
            metrics_file: self.metrics_file,
        }
    }

    /// Broad mode substitutes a coarser fixed bin width; the pipeline is
    /// otherwise unchanged.
    pub fn adjust_for_broad_peaks(&mut self)
        ensures
            final(self).step == if old(self).broad {
                5000u32
            } else {
                old(self).step
            },
            final(self).bam == old(self).bam,
            final(self).control == old(self).control,
            final(self).chromsize == old(self).chromsize,
            final(self).mdist == old(self).mdist,
            final(self).minreads == old(self).minreads,
            final(self).posterior_threshold_ppm == old(self).posterior_threshold_ppm,
            final(self).minwidth == old(self).minwidth,
            final(self).broad == old(self).broad,
            final(self).verbose == old(self).verbose,
            final(self).metrics_file == old(self).metrics_file,
    {
        if self.broad {
            self.step = 5000;
        }
    }

    /// Reject a configuration outside its domain, before the pipeline
    /// runs: a zero bin width or a posterior threshold above one is a
    /// configuration error, and nothing else is.
    pub fn validate(&self) -> (r: Result<(), PipelineError>)
        ensures
            r is Ok <==> self.valid(),
            r is Err ==> r->Err_0 is Config,
    {
        if self.step < 1 {
            return Err(PipelineError::Config(String::from_str("bin width must be positive")));
        }
        if self.posterior_threshold_ppm > PPM_SCALE {
            return Err(
                PipelineError::Config(
                    String::from_str("posterior threshold must be a probability"),
                ),
            );
        }
        Ok(())
    }
}

} // verus!
