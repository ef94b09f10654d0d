//! Blob framing: connected-region extraction over a label map, blob
//! filtering by relative area and position, centroid computation and the
//! proportional crop rectangle that keeps a chosen point centred.
use vstd::prelude::*;

pub mod blobs;
pub mod canvas;
pub mod geometry;
mod imaging;

verus! {

/// The sum of two counters.
pub fn add(left: u64, right: u64) -> (r: u64)
    requires
        left + right <= u64::MAX,
    ensures
        r == left + right,
{
    left + right
}

} // verus!
