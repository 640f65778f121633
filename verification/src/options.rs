//! How a runtime is started, and what its profiler reports.

use vstd::prelude::*;

verus! {

/// What the profiler saw since its last report.
#[derive(Debug, PartialEq, Eq)]
pub struct ProfileSample {
    /// Leaf-first call stack: program counter, then return addresses.
    pub stack: Vec<u32>,
    pub count: u64,
}

/// How a runtime is started. `P` takes the profiler's reports.
pub struct Options<P> {
    pub enable_gdbserver: bool,
    pub profile: Option<P>,
}

} // verus!
