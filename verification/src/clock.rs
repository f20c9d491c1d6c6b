//! The wall clock.
use vstd::prelude::*;

verus! {

/// The time since the Unix epoch in nanoseconds, or `None` while the clock is
/// set before it.
///
/// `std::time::SystemTime::elapsed` of `std::time::UNIX_EPOCH`. Nothing is
/// claimed of the result: it depends on the machine's clock.
#[verifier::external_body]
pub(crate) fn wall_clock() -> (r: Option<u128>) {
    std::time::UNIX_EPOCH.elapsed().ok().map(|d| d.as_nanos())
}

} // verus!
