//! Frame pacing: coalesces render requests to a frame-rate ceiling and keeps
//! counters on what each frame cost.
use crate::time::{duration_as_micros, duration_as_nanos, duration_from_nanos, duration_nanos, duration_sub, instant_elapsed, instant_now};
use std::time::{Duration, Instant};
use vstd::prelude::*;

verus! {

/// Accumulated metrics on rendering performance and terminal operations.
///
/// Byte counters measure the bytes written for each kind of operation,
/// control sequences included; `total_terminal_bytes` is their sum.
#[derive(Debug, Clone, Copy, PartialEq, Eq, Structural)]
pub struct RenderStats {
    pub frames: u64,
    pub skipped_frames: u64,
    /// Cells addressed by the updates of the recorded frames.
    pub dirty_cells: u64,
    pub total_cells: u64,
    /// Bytes emitted by live differential frames (control sequences included).
    pub frame_bytes: u64,
    pub full_repaints: u64,
    pub last_render_duration_micros: u64,
    pub history_insertions: u64,
    /// Insertions that had to repaint the live framebuffer.
    pub insertion_repaints: u64,
    /// Insertions that took the fast path (no live repaint).
    pub fast_insertions: u64,
    pub insertion_bytes: u64,
    /// Times the live-region anchor was invalidated and re-established.
    pub anchor_resyncs: u64,
    pub commit_bytes: u64,
    pub control_bytes: u64,
}

/// All counters at zero.
pub open spec fn zero_stats() -> RenderStats {
    RenderStats {
        frames: 0,
        skipped_frames: 0,
        dirty_cells: 0,
        total_cells: 0,
        frame_bytes: 0,
        full_repaints: 0,
        last_render_duration_micros: 0,
        history_insertions: 0,
        insertion_repaints: 0,
        fast_insertions: 0,
        insertion_bytes: 0,
        anchor_resyncs: 0,
        commit_bytes: 0,
        control_bytes: 0,
    }
}

impl Default for RenderStats {
    fn default() -> (s: Self)
        ensures
            s == zero_stats(),
    {
        RenderStats {
            frames: 0,
            skipped_frames: 0,
            dirty_cells: 0,
            total_cells: 0,
            frame_bytes: 0,
            full_repaints: 0,
            last_render_duration_micros: 0,
            history_insertions: 0,
            insertion_repaints: 0,
            fast_insertions: 0,
            insertion_bytes: 0,
            anchor_resyncs: 0,
            commit_bytes: 0,
            control_bytes: 0,
        }
    }
}

impl RenderStats {
    /// The sum of the frame, commit, insertion and control byte counters.
    pub open spec fn byte_total(&self) -> int {
        self.frame_bytes + self.commit_bytes + self.insertion_bytes + self.control_bytes
    }

    /// Total bytes accounted for across frame, commit, insertion and control
    /// operations.
    pub fn total_terminal_bytes(&self) -> (t: u64)
        requires
            self.byte_total() <= u64::MAX,
        ensures
            t == self.byte_total(),
    {
        self.frame_bytes + self.commit_bytes + self.insertion_bytes + self.control_bytes
    }

    /// Older name of `frame_bytes`.
    pub fn bytes_emitted(&self) -> (b: u64)
        ensures
            b == self.frame_bytes,
    {
        self.frame_bytes
    }
}

/// The cadence recommended for decorative animations such as spinners: 80ms.
pub fn default_animation_interval() -> (d: Duration)
    ensures
        duration_nanos(d) == 80_000_000,
{
    duration_from_nanos(80_000_000)
}

/// The larger of two lengths of time.
pub open spec fn max_nat(a: nat, b: nat) -> nat {
    if a >= b { a } else { b }
}

/// What is left of `budget` after `elapsed`, never below zero.
pub open spec fn remaining_nanos(budget: nat, elapsed: nat) -> nat {
    if elapsed >= budget { 0 } else { (budget - elapsed) as nat }
}

/// The frame budget of a frame-rate ceiling, in nanoseconds.
pub open spec fn budget_nanos(max_fps: u32) -> nat
    recommends
        max_fps > 0,
{
    (1_000_000_000int / (max_fps as int)) as nat
}

/// The part of `budget` that `elapsed` has not used up.
pub fn remaining_budget(budget: Duration, elapsed: Duration) -> (d: Duration)
    ensures
        duration_nanos(d) == remaining_nanos(duration_nanos(budget), duration_nanos(elapsed)),
{
    let b = duration_as_nanos(budget);
    let e = duration_as_nanos(elapsed);
    if e >= b {
        duration_from_nanos(0)
    } else {
        duration_sub(budget, elapsed)
    }
}

/// The elapsed time in nanoseconds, where there is one.
pub open spec fn elapsed_nanos(elapsed: Option<Duration>) -> Option<nat> {
    match elapsed {
        None => None,
        Some(e) => Some(duration_nanos(e)),
    }
}

/// Whether a frame is rendered: only when dirty, and then either before the
/// first frame or once the elapsed time has reached the budget.
pub open spec fn render_due(dirty: bool, elapsed: Option<nat>, max_fps: u32) -> bool {
    dirty && match elapsed {
        None => true,
        Some(e) => e >= budget_nanos(max_fps),
    }
}

/// Whether `elapsed` has reached `budget`: the frame decision once the
/// clock has been read.
pub fn budget_reached(budget: Duration, elapsed: Duration) -> (b: bool)
    ensures
        b == (duration_nanos(elapsed) >= duration_nanos(budget)),
{
    duration_as_nanos(elapsed) >= duration_as_nanos(budget)
}

/// The longer of two durations.
fn longer(a: Duration, b: Duration) -> (d: Duration)
    ensures
        d == a || d == b,
        duration_nanos(d) == max_nat(duration_nanos(a), duration_nanos(b)),
{
    if duration_as_nanos(a) >= duration_as_nanos(b) {
        a
    } else {
        b
    }
}

/// Throttles and coalesces rendering updates to a target frame rate.
pub struct FrameScheduler {
    pub max_fps: u32,
    pub is_dirty: bool,
    /// When the last frame was recorded; `None` before the first.
    pub last_frame_instant: Option<Instant>,
    /// Recommended interval between decorative animation steps.
    pub animation_interval: Duration,
    pub stats: RenderStats,
}

impl FrameScheduler {
    /// A clean scheduler at `max_fps` (raised to at least 1) with zeroed stats
    /// and the default animation cadence.
    pub fn new(max_fps: u32) -> (s: Self)
        ensures
            s.max_fps == (if max_fps >= 1 { max_fps } else { 1 }),
            !s.is_dirty,
            s.last_frame_instant is None,
            duration_nanos(s.animation_interval) == 80_000_000,
            s.stats == zero_stats(),
    {
        FrameScheduler {
            max_fps: if max_fps >= 1 { max_fps } else { 1 },
            is_dirty: false,
            last_frame_instant: None,
            animation_interval: default_animation_interval(),
            stats: RenderStats::default(),
        }
    }

    pub fn mark_dirty(&mut self)
        ensures
            final(self).is_dirty,
            final(self).max_fps == old(self).max_fps,
            final(self).last_frame_instant == old(self).last_frame_instant,
            final(self).animation_interval == old(self).animation_interval,
            final(self).stats == old(self).stats,
    {
        self.is_dirty = true;
    }

    /// Explicit request to schedule a frame render pass.
    pub fn request_render(&mut self)
        ensures
            final(self).is_dirty,
            final(self).max_fps == old(self).max_fps,
            final(self).last_frame_instant == old(self).last_frame_instant,
            final(self).animation_interval == old(self).animation_interval,
            final(self).stats == old(self).stats,
    {
        self.is_dirty = true;
    }

    /// The time one frame may take: one second divided by `max_fps`.
    pub fn frame_budget(&self) -> (d: Duration)
        requires
            self.max_fps > 0,
        ensures
            duration_nanos(d) == budget_nanos(self.max_fps),
    {
        duration_from_nanos(1_000_000_000u64 / (self.max_fps as u64))
    }

    /// The recommended cadence for decorative animation: never faster than
    /// the frame budget.
    pub fn animation_interval(&self) -> (d: Duration)
        requires
            self.max_fps > 0,
        ensures
            duration_nanos(d) == max_nat(duration_nanos(self.animation_interval), budget_nanos(self.max_fps)),
    {
        longer(self.animation_interval, self.frame_budget())
    }

    /// Sets a custom animation cadence, raised to the frame budget.
    pub fn set_animation_interval(&mut self, interval: Duration)
        requires
            old(self).max_fps > 0,
        ensures
            duration_nanos(final(self).animation_interval) == max_nat(duration_nanos(interval), budget_nanos(old(self).max_fps)),
            final(self).max_fps == old(self).max_fps,
            final(self).is_dirty == old(self).is_dirty,
            final(self).last_frame_instant == old(self).last_frame_instant,
            final(self).stats == old(self).stats,
    {
        let b = self.frame_budget();
        self.animation_interval = longer(interval, b);
    }

    /// Time remaining until the budget permits the next frame: zero before
    /// the first frame, and never more than one budget.
    pub fn time_until_next_frame(&self) -> (d: Duration)
        requires
            self.max_fps > 0,
        ensures
            self.last_frame_instant is None ==> duration_nanos(d) == 0,
            self.last_frame_instant is Some ==> exists|elapsed: Duration|
                duration_nanos(d) == remaining_nanos(budget_nanos(self.max_fps), #[trigger] duration_nanos(elapsed)),
            duration_nanos(d) <= budget_nanos(self.max_fps),
    {
        match &self.last_frame_instant {
            None => duration_from_nanos(0),
            Some(last) => {
                let budget = self.frame_budget();
                let elapsed = instant_elapsed(last);
                remaining_budget(budget, elapsed)
            },
        }
    }

    /// True when the frame budget currently permits a render, whatever the
    /// dirty state: always before the first frame, and afterwards exactly
    /// when the time elapsed since the last frame (as the monotonic clock
    /// reports it) has reached the budget, as `budget_reached` decides.
    pub fn frame_due(&self) -> (b: bool)
        requires
            self.max_fps > 0,
        ensures
            self.last_frame_instant is None ==> b,
            self.last_frame_instant is Some ==> exists|elapsed: Duration|
                b == (#[trigger] duration_nanos(elapsed) >= budget_nanos(self.max_fps)),
    {
        match &self.last_frame_instant {
            None => true,
            Some(last) => {
                let elapsed = instant_elapsed(last);
                budget_reached(self.frame_budget(), elapsed)
            },
        }
    }

    /// The render decision for a given elapsed time since the last frame
    /// (`None` when no frame was recorded yet): render only when dirty, and
    /// then only when the budget has elapsed; a dirty frame held back by the
    /// budget is counted as skipped.
    pub fn decide_render(&mut self, elapsed: Option<Duration>) -> (r: bool)
        requires
            old(self).max_fps > 0,
            old(self).stats.skipped_frames < u64::MAX,
        ensures
            r == render_due(old(self).is_dirty, elapsed_nanos(elapsed), old(self).max_fps),
            final(self).stats.skipped_frames == old(self).stats.skipped_frames + (if r || !old(self).is_dirty { 0int } else { 1int }),
            final(self).stats == (RenderStats { skipped_frames: final(self).stats.skipped_frames, ..old(self).stats }),
            final(self).max_fps == old(self).max_fps,
            final(self).is_dirty == old(self).is_dirty,
            final(self).last_frame_instant == old(self).last_frame_instant,
            final(self).animation_interval == old(self).animation_interval,
    {
        if !self.is_dirty {
            return false;
        }
        match elapsed {
            None => true,
            Some(e) => {
                let budget = self.frame_budget();
                let due = budget_reached(budget, e);
                if due {
                    true
                } else {
                    self.stats.skipped_frames = self.stats.skipped_frames + 1;
                    false
                }
            },
        }
    }

    /// Whether a frame should be rendered now: `decide_render` applied to the
    /// time elapsed since the last frame, as the monotonic clock reports it.
    pub fn should_render(&mut self) -> (r: bool)
        requires
            old(self).max_fps > 0,
            old(self).stats.skipped_frames < u64::MAX,
        ensures
            old(self).last_frame_instant is None ==> r == render_due(old(self).is_dirty, None, old(self).max_fps),
            old(self).last_frame_instant is Some ==> exists|elapsed: Duration|
                r == render_due(old(self).is_dirty, Some(#[trigger] duration_nanos(elapsed)), old(self).max_fps),
            final(self).stats.skipped_frames == old(self).stats.skipped_frames + (if r || !old(self).is_dirty { 0int } else { 1int }),
            final(self).stats == (RenderStats { skipped_frames: final(self).stats.skipped_frames, ..old(self).stats }),
            final(self).max_fps == old(self).max_fps,
            final(self).is_dirty == old(self).is_dirty,
            final(self).last_frame_instant == old(self).last_frame_instant,
            final(self).animation_interval == old(self).animation_interval,
    {
        let elapsed = match &self.last_frame_instant {
            None => None,
            Some(last) => Some(instant_elapsed(last)),
        };
        self.decide_render(elapsed)
    }

    /// Records metrics from a completed frame, clears the dirty flag and
    /// starts a new budget period now.
    pub fn record_frame(
        &mut self,
        dirty_cells: usize,
        total_cells: usize,
        bytes_emitted: usize,
        is_full_repaint: bool,
        duration: Duration,
    )
        requires
            old(self).stats.frames < u64::MAX,
            old(self).stats.dirty_cells + dirty_cells <= u64::MAX,
            old(self).stats.total_cells + total_cells <= u64::MAX,
            old(self).stats.frame_bytes + bytes_emitted <= u64::MAX,
            old(self).stats.full_repaints < u64::MAX,
        ensures
            !final(self).is_dirty,
            final(self).last_frame_instant is Some,
            final(self).max_fps == old(self).max_fps,
            final(self).animation_interval == old(self).animation_interval,
            final(self).stats == (RenderStats {
                frames: (old(self).stats.frames + 1) as u64,
                dirty_cells: (old(self).stats.dirty_cells + dirty_cells) as u64,
                total_cells: (old(self).stats.total_cells + total_cells) as u64,
                frame_bytes: (old(self).stats.frame_bytes + bytes_emitted) as u64,
                full_repaints: (old(self).stats.full_repaints + (if is_full_repaint { 1int } else { 0int })) as u64,
                last_render_duration_micros: (duration_nanos(duration) / 1000) as u64,
                ..old(self).stats
            }),
    {
        self.is_dirty = false;
        self.last_frame_instant = Some(instant_now());
        self.stats.frames = self.stats.frames + 1;
        self.stats.dirty_cells = self.stats.dirty_cells + dirty_cells as u64;
        self.stats.total_cells = self.stats.total_cells + total_cells as u64;
        self.stats.frame_bytes = self.stats.frame_bytes + bytes_emitted as u64;
        if is_full_repaint {
            self.stats.full_repaints = self.stats.full_repaints + 1;
        }
        self.stats.last_render_duration_micros = duration_as_micros(duration) as u64;
    }
}

} // verus!
