//! The clock of the machine.

use std::time::Instant;
use vstd::prelude::*;

verus! {

/// `std::time::Instant`: a point in time.
#[verifier::external_type_specification]
#[verifier::external_body]
pub struct ExInstant(std::time::Instant);

/// `Instant::now`: the present; nothing is said of which that is.
#[verifier::external_body]
pub(crate) fn now() -> Instant {
    Instant::now()
}

/// `Instant::elapsed`, in nanoseconds: how long ago `start` was; any number may come.
#[verifier::external_body]
pub(crate) fn nanos_since(start: &Instant) -> u128 {
    start.elapsed().as_nanos()
}

/// How many whole milliseconds ago `start` was; any number may come.
pub(crate) fn millis_since(start: &Instant) -> (millis: u128)
    ensures
        exists|nanos: u128| #[trigger]
            call_ensures(nanos_since, (start,), nanos) && millis == nanos / 1_000_000,
{
    nanos_since(start) / 1_000_000
}

} // verus!
