//! Durations and monotonic instants from `std::time`, as the engine sees
//! them: a duration is its length in nanoseconds; an instant is opaque.
use std::time::{Duration, Instant};
use vstd::prelude::*;

verus! {

#[verifier::external_type_specification]
#[verifier::external_body]
pub struct ExInstant(Instant);

/// The length of a `Duration`, in nanoseconds.
pub uninterp spec fn duration_nanos(d: Duration) -> nat;

/// The largest representable duration is `u64::MAX` seconds plus
/// 999,999,999 nanoseconds.
pub open spec fn max_duration_nanos() -> nat {
    (u64::MAX as nat) * 1_000_000_000 + 999_999_999
}

/// `Duration::from_nanos`: a duration of exactly `n` nanoseconds.
#[verifier::external_body]
pub fn duration_from_nanos(n: u64) -> (d: Duration)
    ensures
        duration_nanos(d) == n,
{
    Duration::from_nanos(n)
}

/// `Duration::as_nanos`: the total number of nanoseconds of `d`.
#[verifier::external_body]
pub fn duration_as_nanos(d: Duration) -> (n: u128)
    ensures
        n == duration_nanos(d),
        n <= max_duration_nanos(),
{
    d.as_nanos()
}

/// `Duration::as_micros`: the total number of whole microseconds of `d`.
#[verifier::external_body]
pub fn duration_as_micros(d: Duration) -> (n: u128)
    ensures
        n == duration_nanos(d) / 1000,
{
    d.as_micros()
}

/// `Duration::new`: `secs` seconds and `nanos` nanoseconds. It panics only
/// when carrying whole seconds out of `nanos` overflows the seconds, which
/// the precondition `nanos < 10^9` rules out.
#[verifier::external_body]
pub fn duration_new(secs: u64, nanos: u32) -> (r: Duration)
    requires
        nanos < 1_000_000_000,
    ensures
        duration_nanos(r) == secs as nat * 1_000_000_000 + nanos as nat,
{
    Duration::new(secs, nanos)
}

/// `Duration - Duration`: the difference of two durations; it panics when the
/// result would be negative, which the precondition rules out.
#[verifier::external_body]
pub fn duration_sub(a: Duration, b: Duration) -> (r: Duration)
    requires
        duration_nanos(a) >= duration_nanos(b),
    ensures
        duration_nanos(r) == duration_nanos(a) - duration_nanos(b),
{
    a - b
}

/// `Instant::now`: the current moment of the monotonic clock.
#[verifier::external_body]
pub fn instant_now() -> Instant {
    Instant::now()
}

/// `Instant::elapsed`: time since `i`; it depends on the clock, so nothing is
/// stated of its value.
#[verifier::external_body]
pub fn instant_elapsed(i: &Instant) -> Duration {
    i.elapsed()
}

} // verus!
