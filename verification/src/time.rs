//! Times: ticks of 100 nanoseconds since 1601, and seconds since 1970.

use vstd::prelude::*;

verus! {

/// The seconds from the beginning of 1601 to the beginning of 1970.
pub const EPOCH_DIFF: i64 = 11_644_473_600;

/// The ticks of a second.
pub const TICKS_PER_SECOND: u64 = 10_000_000;

/// The seconds since 1970, and the nanoseconds since then, of a time in ticks.
pub open spec fn unix_time(ticks: u64) -> (int, int) {
    (
        (ticks / TICKS_PER_SECOND) - EPOCH_DIFF,
        ((ticks % TICKS_PER_SECOND) * 100),
    )
}

/// A time in ticks as seconds since 1970 and nanoseconds since then. Before 1970
/// the seconds are negative and the nanoseconds are not.
pub fn ntfs_time_to_unix(ticks: u64) -> (t: (i64, u32))
    ensures
        (t.0 as int, t.1 as int) == unix_time(ticks),
        t.1 < 1_000_000_000,
{
    (
        (ticks / TICKS_PER_SECOND) as i64 - EPOCH_DIFF,
        ((ticks % TICKS_PER_SECOND) * 100) as u32,
    )
}

/// The seconds and nanoseconds of a time give back its ticks.
pub proof fn lemma_unix_time_is_exact(ticks: u64)
    ensures
        (unix_time(ticks).0 + EPOCH_DIFF) * TICKS_PER_SECOND + unix_time(ticks).1 / 100 == ticks,
{
}

} // verus!
