//! The one place the engine reads the wall clock.

use vstd::prelude::*;

verus! {

/// The range a clock reading can lie in.
pub open spec fn clock_reading(now: int) -> bool {
    -400_000_000_000 <= now <= 400_000_000_000
}

/// Relies on `time::OffsetDateTime::now_utc` and `unix_timestamp`: the
/// current moment, as whole seconds since the Unix epoch.  Which moment
/// comes back is not assumed; the bound holds of every outcome because
/// the crate keeps an `OffsetDateTime` within the years -9999 to 9999.
#[verifier::external_body]
fn read_clock() -> (r: i64)
    ensures
        -400_000_000_000 <= r <= 400_000_000_000,
{
    time::OffsetDateTime::now_utc().unix_timestamp()
}

/// The current moment, as whole seconds since the Unix epoch.
pub fn now_unix_seconds() -> (r: i64)
    ensures
        -400_000_000_000 <= r <= 400_000_000_000,
{
    read_clock()
}

} // verus!
