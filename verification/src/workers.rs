//! The worker count for the parallel grid fill: one worker per logical
//! processor of the machine.

use vstd::prelude::*;

verus! {

/// Relies on num_cpus::get: the number of logical processors available to
/// this process, which is documented to be at least 1. The value depends on
/// the machine, so nothing more is stated of it.
#[verifier::external_body]
fn query_logical_cpus() -> (n: usize)
    ensures
        n >= 1,
{
    num_cpus::get()
}

/// The number of parallel workers to fill grid rows with: the machine's
/// logical processor count, always at least one.
pub fn available_workers() -> (n: usize)
    ensures
        n >= 1,
{
    query_logical_cpus()
}

} // verus!
