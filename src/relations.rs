//! Time relations between recorded broadcasts.
use vstd::prelude::*;

verus! {

/// Slack, in seconds, added on both sides of the target range (10 minutes).
pub const OVERLAP_BUFFER_SEC: i64 = 600;

/// Whether a candidate broadcast `[candidate_start, candidate_end]` overlaps
/// the target broadcast widened by `OVERLAP_BUFFER_SEC` on both sides; all
/// times in seconds.
pub fn is_time_range_overlapping(target_start: i64, target_end: i64, candidate_start: i64, candidate_end: i64) -> (r: bool)
    ensures
        r == (target_start - OVERLAP_BUFFER_SEC < candidate_end && candidate_start < target_end
            + OVERLAP_BUFFER_SEC),
{
    let buffer = OVERLAP_BUFFER_SEC as i128;
    (target_start as i128) - buffer < candidate_end as i128 && (candidate_start as i128) < (target_end
        as i128) + buffer
}

} // verus!
