//! Time on an integer clock.
//!
//! Times are counted in nanoseconds from the start of the recording, so that
//! every comparison the library makes on them is exact. Callers convert from
//! and to seconds at the edge.

use vstd::prelude::*;

verus! {

/// Nanoseconds per second.
pub const NANOS_PER_SEC: i64 = 1_000_000_000;

/// Width of one frame of the scoring grid: 10 ms.
pub const FRAME_NANOS: i64 = 10_000_000;

/// A half-open time interval `[start, end)` in nanoseconds.
#[derive(Clone, Copy, Debug, PartialEq, Eq)]
pub struct TimeRange {
    pub start: i64,
    pub end: i64,
}

impl TimeRange {
    /// Whether instant `t` lies in `[start, end)`.
    pub open spec fn holds(self, t: int) -> bool {
        self.start <= t < self.end
    }
}

/// The centre of grid frame `i`, in nanoseconds.
pub open spec fn frame_center(i: int) -> int {
    i * FRAME_NANOS + FRAME_NANOS / 2
}

} // verus!
