//! Time, which the pipeline and the executor carry opaquely.
use vstd::prelude::*;
use std::time::Duration;
use std::time::Instant;

verus! {

/// `std::time::Instant`, carried through the pipeline opaquely.
#[verifier::external_type_specification]
#[verifier::external_body]
pub struct ExInstant(Instant);

/// `Instant::now`. The result is the current time: nothing is stated of it.
#[verifier::external_body]
pub(crate) fn now() -> Instant {
    Instant::now()
}

/// `Instant::elapsed`. The result depends on the clock: nothing is stated of it.
#[verifier::external_body]
pub(crate) fn elapsed_since(start: &Instant) -> Duration {
    start.elapsed()
}

/// The duration of `seconds` whole seconds.
pub uninterp spec fn secs_duration(seconds: u64) -> Duration;

/// `Duration::from_secs`: the contract only names its result, which
/// depends on `seconds` alone.
#[verifier::external_body]
pub(crate) fn duration_from_secs(seconds: u64) -> (d: Duration)
    ensures
        d == secs_duration(seconds),
{
    Duration::from_secs(seconds)
}

/// `Duration >= Duration` (`PartialOrd::ge`). Durations are opaque here:
/// nothing is stated of the answer.
#[verifier::external_body]
pub(crate) fn duration_at_least(d: &Duration, limit: &Duration) -> bool {
    *d >= *limit
}

} // verus!
