//! How long something took.

use std::time::{Duration, Instant};

use vstd::prelude::*;

verus! {

/// [`std::time::Instant`], a moment on the machine's clock.
#[verifier::external_type_specification]
#[verifier::external_body]
pub struct ExInstant(std::time::Instant);

/// [`Instant::now`]. Nothing is claimed of the moment: it is the machine's.
#[verifier::external_body]
pub(crate) fn now() -> (r: Instant) {
    Instant::now()
}

/// [`Instant::elapsed`]. Nothing is claimed of the time: it is the machine's.
#[verifier::external_body]
pub(crate) fn since(start: &Instant) -> (r: Duration) {
    start.elapsed()
}

} // verus!
