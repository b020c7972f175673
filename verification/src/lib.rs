//! Core of a load-test dashboard: parsing the test tool's event log into
//! aggregated reports, the run lifecycle (staging, promotion, status records),
//! and the listing of runs.

use vstd::prelude::*;

pub mod codec;
pub mod config;
pub mod error;
pub mod models;
pub mod num;
pub mod orchestrator;
pub mod parser;
pub mod registry;
pub mod report;
pub mod stats;
pub mod text;

verus! {

/// Where the registry looks for a run's record file, relative to the run's
/// directory.
pub fn record_file_name() -> (r: &'static str)
    ensures
        r@ == "testrun-data.json"@,
{
    "testrun-data.json"
}

/// The name under which the external tool writes its native event log.
pub fn log_file_name() -> (r: &'static str)
    ensures
        r@ == "simulation.log"@,
{
    "simulation.log"
}

} // verus!
