//! Process-wide run configuration.

use vstd::prelude::*;

verus! {

/// Optional bounds forwarded to the external exploration engine as
/// command-line arguments; environment variables override each of them
/// independently.
#[derive(Debug, Clone, Copy, PartialEq, Eq)]
pub struct TestOptions {
    pub max_seq_runs: Option<u32>,
    pub max_parallel_runs: Option<u32>,
    pub max_actions: Option<u32>,
}

impl Default for TestOptions {
    /// No bounds set: every flag is omitted unless the environment supplies
    /// a value.
    fn default() -> (r: TestOptions)
        ensures
            r.max_seq_runs is None,
            r.max_parallel_runs is None,
            r.max_actions is None,
    {
        TestOptions { max_seq_runs: None, max_parallel_runs: None, max_actions: None }
    }
}

} // verus!
