//! Durations as whole nanoseconds.

use vstd::prelude::*;
use core::time::Duration;

verus! {

/// The total number of whole nanoseconds in a `Duration`, as
/// `Duration::as_nanos` reports it.
pub uninterp spec fn duration_nanos(d: Duration) -> u128;

/// Number of nanoseconds in one second.
pub const NANOS_PER_SEC: u128 = 1_000_000_000u128;

/// Calls `core::time::Duration::as_nanos`. Trusted: the result is the
/// duration's total number of whole nanoseconds, named `duration_nanos`.
#[verifier::external_body]
pub(crate) fn duration_as_nanos(d: &Duration) -> (r: u128)
    ensures
        r == duration_nanos(*d),
{
    d.as_nanos()
}

/// Calls `core::time::Duration::new`. Trusted: with fewer than one billion
/// extra nanoseconds (so that no carry can overflow and the call cannot panic)
/// the duration holds `secs` seconds plus `nanos` nanoseconds in total, as the
/// documentation of `Duration::new` and `Duration::as_nanos` describes.
#[verifier::external_body]
pub(crate) fn duration_new(secs: u64, nanos: u32) -> (r: Duration)
    requires
        nanos < 1_000_000_000,
    ensures
        duration_nanos(r) == secs * NANOS_PER_SEC + nanos,
{
    Duration::new(secs, nanos)
}

} // verus!
