//! Small helpers around the standard library.

use vstd::prelude::*;

verus! {

#[verifier::external_type_specification]
#[verifier::external_body]
pub struct ExInstant(std::time::Instant);

/// Relies on std::time::Instant::now: an opaque moment on the monotonic
/// clock; nothing is promised of it.
#[verifier::external_body]
fn instant_now() -> std::time::Instant {
    std::time::Instant::now()
}

/// Relies on std::time::Instant::elapsed: the time since the instant;
/// nothing is promised of the clock.
#[verifier::external_body]
fn instant_elapsed(start: &std::time::Instant) -> std::time::Duration {
    start.elapsed()
}

/// Run the closure and hand back how long it took together with its result.
/// The duration is opaque; the result is exactly the closure's.
pub fn measure_time<T, F: FnOnce() -> T>(f: F) -> (r: (std::time::Duration, T))
    requires
        call_requires(f, ()),
    ensures
        call_ensures(f, (), r.1),
{
    let now = instant_now();
    let result = f();
    (instant_elapsed(&now), result)
}

} // verus!
