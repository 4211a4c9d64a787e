//! The threshold policy: when is a memory footprint a violation of the
//! configured ceiling?

use vstd::prelude::*;

verus! {

/// A usage violates a threshold exactly when it is strictly greater: a usage
/// equal to the threshold is within budget (the ceiling is inclusive).
pub fn is_violation(usage_bytes: u64, threshold_bytes: u64) -> (r: bool)
    ensures
        r == (usage_bytes > threshold_bytes),
{
    usage_bytes > threshold_bytes
}

} // verus!
