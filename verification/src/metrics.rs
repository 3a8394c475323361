//! Run metadata reported at the end of a run.  Writing the report to disk
//! is the calling program's business.

use core::time::Duration;
use vstd::prelude::*;

verus! {

/// What a finished run reports about itself.
#[derive(Debug)]
pub struct Metrics {
    pub version: String,
    pub date: String,
    pub elapsed: String,
    pub prefix: String,
    pub command: String,
    pub peaks: usize,
}

/// Relies on chrono's `Local::now` and its formatter for the timestamp.
/// The result depends on the clock, so nothing is promised of it.
#[verifier::external_body]
fn current_datetime_text() -> String {
    chrono::Local::now().format("%Y-%m-%d %I:%M:%S %p").to_string()
}

/// Relies on the standard `Debug` rendering of `core::time::Duration`
/// (`60s`, `1.5ms`, ...).  Nothing is promised of the text.
#[verifier::external_body]
fn duration_text(elapsed: Duration) -> String {
    format!("{:?}", elapsed)
}

impl Metrics {
    /// Collect the run's metadata, stamping it with the local time.
    pub fn new(version: &str, prefix: &str, command: &str, peaks: usize, elapsed: Duration) -> (r:
        Metrics)
        ensures
            r.version@ == version@,
            r.prefix@ == prefix@,
            r.command@ == command@,
            r.peaks == peaks,
    {
        Metrics {
            version: version.to_owned(),
            date: current_datetime_text(),
            elapsed: duration_text(elapsed),
            prefix: prefix.to_owned(),
            command: command.to_owned(),
            peaks,
        }
    }
}

} // verus!
