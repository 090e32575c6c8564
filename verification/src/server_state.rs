//! Timing of the cluster's short timers.
use vstd::prelude::*;

verus! {

/// A short timeout, in milliseconds, drawn from a clock reading: between
/// 150 and 200.
pub fn generate_random_number(nanos: u64) -> (r: u64)
    ensures
        r == 150 + nanos % 51,
        150 <= r <= 200,
{
    150 + nanos % 51
}

} // verus!
