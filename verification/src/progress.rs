//! Progress reports of long tasks.

use vstd::prelude::*;

verus! {

/// Progress of a long task: step `step` (1-based) of `total_steps`, with optional details.
pub struct ProgressMsg {
    pub info: Option<String>,
    pub step: usize,
    pub total_steps: usize,
}

} // verus!
