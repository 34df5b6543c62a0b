//! The timing model: per-sample durations in track time-scale units at a
//! constant frame rate, with the fractional remainder carried over.
use vstd::prelude::*;

verus! {

/// Ticks per second of every video track.
pub const VIDEO_TIME_SCALE: u32 = 90000;

/// The frame rate used when the caller names none.
pub const DEFAULT_FPS: u32 = 60;

/// The most frames one clock counts, so that `frames * time_scale` fits in 64 bits.
pub const MAX_CLOCK_FRAMES: u64 = 0xffff_ffff;

/// Ticks elapsed after `n` frames at `fps` frames per second: the exact time,
/// truncated to whole ticks.
pub open spec fn elapsed_ticks(n: nat, time_scale: nat, fps: nat) -> int
    recommends
        fps > 0,
{
    (n * time_scale) as int / fps as int
}

/// `x / d` rounded to the nearest integer, halves up.
pub open spec fn round_div(x: int, d: int) -> int
    recommends
        d > 0,
{
    (2 * x + d) / (2 * d)
}

/// A constant-rate clock: hands out per-frame durations whose running sum is
/// always the exact elapsed time truncated to whole ticks, so that the
/// fractional part of `time_scale / fps` never accumulates into drift.
#[derive(Clone, Copy)]
pub struct FrameClock {
    pub time_scale: u32,
    pub fps: u32,
    pub frames: u64,
    pub elapsed: u64,
}

impl FrameClock {
    /// The clock's invariant: a rate no faster than one frame per tick, and the
    /// elapsed time that its frame count gives.
    pub open spec fn wf(&self) -> bool {
        &&& 0 < self.fps <= self.time_scale
        &&& self.frames <= MAX_CLOCK_FRAMES
        &&& self.elapsed == elapsed_ticks(self.frames as nat, self.time_scale as nat, self.fps as nat)
    }

    /// A clock at zero, or `None` where a frame would last less than one tick
    /// (`fps` zero or above `time_scale`).
    pub fn new(time_scale: u32, fps: u32) -> (r: Option<FrameClock>)
        ensures
            (0 < fps && fps <= time_scale) <==> r.is_some(),
            r matches Some(c) ==> {
                &&& c.wf()
                &&& c.time_scale == time_scale
                &&& c.fps == fps
                &&& c.frames == 0
                &&& c.elapsed == 0
            },
    {
        if fps == 0 || fps > time_scale {
            None
        } else {
            proof {
                assert(0nat * time_scale as nat == 0) by (nonlinear_arith);
            }
            Some(FrameClock { time_scale, fps, frames: 0, elapsed: 0 })
        }
    }

    /// Counts one more frame and returns its duration: the growth of the
    /// truncated elapsed time. `None`, with the clock unchanged, once the
    /// clock has counted its most frames.
    pub fn tick(&mut self) -> (r: Option<u32>)
        requires
            old(self).wf(),
        ensures
            final(self).wf(),
            final(self).time_scale == old(self).time_scale,
            final(self).fps == old(self).fps,
            old(self).frames == MAX_CLOCK_FRAMES ==> r.is_none() && *final(self) == *old(self),
            old(self).frames < MAX_CLOCK_FRAMES ==> r.is_some(),
            r matches Some(d) ==> {
                &&& d >= 1
                &&& final(self).frames == old(self).frames + 1
                &&& final(self).elapsed == old(self).elapsed + d
            },
    {
        if self.frames >= MAX_CLOCK_FRAMES {
            return None;
        }
        let n: u64 = self.frames + 1;
        let ts: u64 = self.time_scale as u64;
        let f: u64 = self.fps as u64;
        proof {
            assert(n * ts <= 0xffff_ffffu64 * 0xffff_ffffu64) by (nonlinear_arith)
                requires
                    n <= 0xffff_ffffu64,
                    ts <= 0xffff_ffffu64,
            ;
        }
        let next: u64 = (n * ts) / f;
        proof {
            lemma_elapsed_step(self.frames as int, ts as int, f as int);
            assert(next as int <= 0xffff_ffffu64 * 0xffff_ffffu64) by (nonlinear_arith)
                requires
                    next as int == (n * ts) as int / f as int,
                    f >= 1,
                    n * ts <= 0xffff_ffffu64 * 0xffff_ffffu64,
            ;
        }
        let d: u64 = next - self.elapsed;
        proof {
            lemma_step_fits(self.frames as int, ts as int, f as int);
        }
        self.frames = n;
        self.elapsed = next;
        Some(d as u32)
    }
}

/// One more frame adds at least one tick when a frame lasts at least a tick.
proof fn lemma_elapsed_step(n: int, ts: int, f: int)
    requires
        n >= 0,
        0 < f <= ts,
    ensures
        ((n + 1) * ts) / f >= (n * ts) / f + 1,
        ((n + 1) * ts) / f <= (n * ts) / f + ts / f + 1,
{
    assert((n + 1) * ts == n * ts + ts) by (nonlinear_arith);
    assert((n * ts + ts) / f >= (n * ts) / f + ts / f) by (nonlinear_arith)
        requires
            f > 0,
            n * ts >= 0,
            ts >= 0,
    ;
    assert(ts / f >= 1) by (nonlinear_arith)
        requires
            0 < f <= ts,
    ;
    assert((n * ts + ts) / f <= (n * ts) / f + ts / f + 1) by (nonlinear_arith)
        requires
            f > 0,
            n * ts >= 0,
            ts >= 0,
    ;
}

/// A frame's duration fits in the time scale's type.
proof fn lemma_step_fits(n: int, ts: int, f: int)
    requires
        n >= 0,
        0 < f <= ts <= 0xffff_ffff,
    ensures
        ((n + 1) * ts) / f - (n * ts) / f <= 0xffff_ffff,
{
    let a = n * ts;
    assert(a >= 0) by (nonlinear_arith)
        requires
            a == n * ts,
            n >= 0,
            ts >= 0,
    ;
    assert((n + 1) * ts == a + ts) by (nonlinear_arith)
        requires
            a == n * ts,
    ;
    assert((a + ts) / f - a / f <= ts) by (nonlinear_arith)
        requires
            a >= 0,
            0 < f <= ts,
    ;
}

/// The total duration of a constant-rate track, truncated to whole ticks, lies
/// within one tick of the exact duration rounded to the nearest tick.
pub proof fn lemma_total_within_one_tick(n: nat, time_scale: nat, fps: nat)
    requires
        fps > 0,
    ensures
        elapsed_ticks(n, time_scale, fps) <= round_div((n * time_scale) as int, fps as int),
        round_div((n * time_scale) as int, fps as int) <= elapsed_ticks(n, time_scale, fps) + 1,
{
    let x = (n * time_scale) as int;
    let f = fps as int;
    assert(x / f <= (2 * x + f) / (2 * f)) by (nonlinear_arith)
        requires
            f > 0,
            x >= 0,
    ;
    assert((2 * x + f) / (2 * f) <= x / f + 1) by (nonlinear_arith)
        requires
            f > 0,
            x >= 0,
    ;
}

} // verus!
