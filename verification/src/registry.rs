//! Storage of metric values.
use vstd::prelude::*;

verus! {

/// Storage of metric values in atomic cells: one `u64` per counter (its
/// count), one per gauge (the bit pattern of its `f64` value), and a bucket
/// of timestamped samples per histogram.
pub struct AtomicStorage;

impl AtomicStorage {
    /// The count a new counter starts from.
    pub fn counter_start(&self) -> (v: u64)
        ensures
            v == 0,
    {
        0
    }

    /// The bit pattern a new gauge starts from: that of `0.0`.
    pub fn gauge_start(&self) -> (v: u64)
        ensures
            v == 0,
    {
        0
    }
}

} // verus!
