//! Wall-clock time, which a search reports and never reasons about.
use vstd::prelude::*;
use std::time::{Duration, Instant};

verus! {

#[verifier::external_type_specification]
#[verifier::external_body]
pub struct ExInstant(Instant);

/// `Instant::now`: the moment of the call. Nothing is claimed of it.
#[verifier::external_body]
pub(crate) fn now() -> Instant {
    Instant::now()
}

/// `Instant::elapsed`: the time that has passed since `start`. Nothing is
/// claimed of it.
#[verifier::external_body]
pub(crate) fn elapsed(start: &Instant) -> Duration {
    start.elapsed()
}

/// `Duration::default`: the time reported before anything was measured.
/// Nothing is claimed of it.
#[verifier::external_body]
pub(crate) fn no_time() -> Duration {
    Duration::default()
}

} // verus!
