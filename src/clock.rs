use std::time::Instant;
use vstd::prelude::*;

verus! {

/// A point in wall-clock time.
#[verifier::external_type_specification]
#[verifier::external_body]
pub struct ExInstant(std::time::Instant);

/// Relies on `Instant::now`: the current time; nothing is known of its value.
#[verifier::external_body]
pub(crate) fn clock_now() -> (r: Instant) {
    Instant::now()
}

/// Relies on `Instant::elapsed`: the time passed since `start`, here in whole
/// milliseconds; nothing is known of its value.
#[verifier::external_body]
pub(crate) fn millis_since(start: &Instant) -> (r: u128) {
    start.elapsed().as_millis()
}

} // verus!
