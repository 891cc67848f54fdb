//! Deterministic time: a wall clock for interactive use and an exact
//! fixed-step clock (`frame * step`) for reproducible scripted runs.
use crate::time::{duration_as_nanos, duration_from_nanos, duration_nanos, duration_new, instant_elapsed, instant_now, max_duration_nanos};
use std::time::{Duration, Instant};
use vstd::prelude::*;

verus! {

/// Wall-clock time since construction.
#[derive(Debug)]
pub struct RealClock {
    pub start: Instant,
}

impl RealClock {
    pub fn new() -> Self {
        RealClock { start: instant_now() }
    }

    /// Time elapsed since construction, as the monotonic clock reports it.
    pub fn now(&self) -> Duration {
        instant_elapsed(&self.start)
    }
}

/// Exact, deterministic time: `frame_index * step`.
#[derive(Debug)]
pub struct FixedStepClock {
    pub step: Duration,
    pub frame: u64,
}

/// The time a fixed-step clock reports: exactly the step times the frame
/// index.
pub open spec fn fixed_time(step: Duration, frame: u64) -> nat {
    duration_nanos(step) * (frame as nat)
}

impl FixedStepClock {
    /// Creates a fixed-step clock at frame 0; `step` is raised to at least 1ns.
    pub fn new(step: Duration) -> (c: Self)
        ensures
            c.frame == 0,
            duration_nanos(c.step) == (if duration_nanos(step) >= 1 { duration_nanos(step) } else { 1 }),
    {
        let n = duration_as_nanos(step);
        let s = if n >= 1 { step } else { duration_from_nanos(1) };
        FixedStepClock { step: s, frame: 0 }
    }

    /// The fixed timestep.
    pub fn step(&self) -> (d: Duration)
        ensures
            d == self.step,
    {
        self.step
    }

    /// Current frame index.
    pub fn frame(&self) -> (f: u64)
        ensures
            f == self.frame,
    {
        self.frame
    }

    /// Current time without advancing: `step * frame`.
    pub fn now(&self) -> (d: Duration)
        requires
            fixed_time(self.step, self.frame) <= max_duration_nanos(),
        ensures
            duration_nanos(d) == fixed_time(self.step, self.frame),
    {
        let step_n: u128 = duration_as_nanos(self.step);
        let frame: u128 = self.frame as u128;
        proof {
            assert(step_n as nat * frame as nat <= max_duration_nanos());
            assert(max_duration_nanos() < 0x1_0000_0000_0000_0000_0000_0000);
        }
        let total: u128 = step_n * frame;
        let secs: u128 = total / 1_000_000_000;
        let nanos: u128 = total % 1_000_000_000;
        proof {
            assert(secs <= u64::MAX) by (nonlinear_arith)
                requires secs == total / 1_000_000_000, total <= (u64::MAX as nat) * 1_000_000_000 + 999_999_999;
            assert(total == secs * 1_000_000_000 + nanos) by (nonlinear_arith)
                requires secs == total / 1_000_000_000, nanos == total % 1_000_000_000;
        }
        duration_new(secs as u64, nanos as u32)
    }

    /// Advances one frame and returns the new time.
    pub fn advance(&mut self) -> (d: Duration)
        requires
            old(self).frame < u64::MAX,
            fixed_time(old(self).step, (old(self).frame + 1) as u64) <= max_duration_nanos(),
        ensures
            final(self).step == old(self).step,
            final(self).frame == old(self).frame + 1,
            duration_nanos(d) == fixed_time(final(self).step, final(self).frame),
    {
        self.frame = self.frame + 1;
        self.now()
    }
}

/// Per-frame time source: wall-clock or exact fixed-step.
#[derive(Debug)]
pub enum TimeSource {
    Real(RealClock),
    Fixed(FixedStepClock),
}

impl TimeSource {
    /// Wall-clock time source.
    pub fn wall_clock() -> (t: Self)
        ensures
            t is Real,
    {
        TimeSource::Real(RealClock::new())
    }

    /// Deterministic fixed-step time source at frame 0.
    pub fn fixed(step: Duration) -> (t: Self)
        ensures
            t matches TimeSource::Fixed(c) && c.frame == 0
                && duration_nanos(c.step) == (if duration_nanos(step) >= 1 { duration_nanos(step) } else { 1 }),
    {
        TimeSource::Fixed(FixedStepClock::new(step))
    }

    /// True for deterministic fixed-step time.
    pub fn is_fixed(&self) -> (b: bool)
        ensures
            b == (self is Fixed),
    {
        match self {
            TimeSource::Fixed(_) => true,
            TimeSource::Real(_) => false,
        }
    }

    /// Current time.
    pub fn now(&self) -> (d: Duration)
        requires
            self matches TimeSource::Fixed(c) ==> fixed_time(c.step, c.frame) <= max_duration_nanos(),
        ensures
            self matches TimeSource::Fixed(c) ==> duration_nanos(d) == fixed_time(c.step, c.frame),
    {
        match self {
            TimeSource::Real(c) => c.now(),
            TimeSource::Fixed(c) => c.now(),
        }
    }

    /// Advances one frame and returns the new animation time; the wall clock
    /// just reports the current time.
    pub fn advance(&mut self) -> (d: Duration)
        requires
            *old(self) matches TimeSource::Fixed(c) ==> c.frame < u64::MAX
                && fixed_time(c.step, (c.frame + 1) as u64) <= max_duration_nanos(),
        ensures
            (*old(self) is Real) ==> (*final(self) is Real),
            *old(self) matches TimeSource::Fixed(c0) ==> (*final(self) matches TimeSource::Fixed(c1)
                && c1.step == c0.step && c1.frame == c0.frame + 1
                && duration_nanos(d) == fixed_time(c1.step, c1.frame)),
    {
        match self {
            TimeSource::Real(c) => c.now(),
            TimeSource::Fixed(c) => c.advance(),
        }
    }
}

} // verus!
