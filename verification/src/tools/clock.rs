use vstd::prelude::*;
use std::time::{Duration, Instant};

verus! {

/// `std::time::Instant`, a moment on the machine's steady clock. It is
/// carried around as it is; nothing of its inside is known here.
#[verifier::external_type_specification]
#[verifier::external_body]
pub struct ExInstant(Instant);

/// `Instant::now`: the moment of the call. Every call gives another one;
/// nothing is known of it.
#[verifier::external_body]
pub(crate) fn now() -> (moment: Instant) {
    Instant::now()
}

/// `Instant::elapsed`: the time that has passed since `moment`. It depends
/// on when it is asked; nothing is known of it.
#[verifier::external_body]
pub(crate) fn elapsed_since(moment: &Instant) -> (time: Duration) {
    moment.elapsed()
}

} // verus!
