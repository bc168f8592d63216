//! Frame pacing: a rate limiter that gates how often a capture/encode/send
//! cycle may run, plus an adaptive layer that moves the target rate by
//! bounded multiplicative steps in response to observed packet loss and
//! slow cycles.
//!
//! All timestamps are caller-supplied milliseconds from a monotonic clock;
//! the pacer itself never reads a clock.

use vstd::prelude::*;

verus! {

/// Reports of packet loss at or above this rate (in permille) reduce the
/// target rate.
pub const LOSS_HIGH_WATER_PERMILLE: u32 = 100;

/// Reports of packet loss below half this mark allow the target rate to
/// rise again.
pub const LOSS_LOW_WATER_PERMILLE: u32 = 100;

/// Number of consecutive slow cycles that triggers a rate reduction.
pub const SLOW_CYCLE_LIMIT: u32 = 5;

/// Paces frames at a fixed target rate.
pub struct FramePacer {
    /// Target frame rate; always at least 1.
    pub target_fps: u32,
    /// Caller-clock instant the last frame was released.
    pub last_frame_time_ms: u64,
    /// Frames released since construction or the last reset.
    pub frame_count: u64,
    /// Caller-clock instant of construction or the last reset.
    pub start_time_ms: u64,
}

impl FramePacer {
    /// The pacer is meaningful only for a positive frame rate.
    pub open spec fn wf(self) -> bool {
        self.target_fps >= 1
    }

    /// Milliseconds between frames at frame rate `fps`.
    pub open spec fn interval_ms(fps: u32) -> int
        recommends
            fps >= 1,
    {
        1000int / fps as int
    }

    /// The target frame rate this pacer currently enforces.
    pub open spec fn spec_target_fps(self) -> u32 {
        self.target_fps
    }

    /// The instant (caller-clock milliseconds) the last frame was released.
    pub open spec fn spec_last_frame_time_ms(self) -> u64 {
        self.last_frame_time_ms
    }

    /// Frames released since construction or the last reset.
    pub open spec fn spec_frame_count(self) -> u64 {
        self.frame_count
    }

    pub fn new(target_fps: u32, now_ms: u64) -> (p: Self)
        requires
            target_fps >= 1,
        ensures
            p.wf(),
            p.spec_target_fps() == target_fps,
            p.spec_last_frame_time_ms() == now_ms,
            p.spec_frame_count() == 0,
    {
        FramePacer { target_fps, last_frame_time_ms: now_ms, frame_count: 0, start_time_ms: now_ms }
    }

    /// The target duration between frames, in milliseconds.
    pub fn spf(&self) -> (r: u64)
        requires
            self.wf(),
        ensures
            r == Self::interval_ms(self.target_fps),
    {
        1000 / (self.target_fps as u64)
    }

    /// True exactly when a full inter-frame interval has elapsed since the
    /// last frame was released; on true, the release timestamp advances to
    /// `now_ms` and the frame counter increments, so immediately repeated
    /// calls return false until another interval passes.
    pub fn should_capture(&mut self, now_ms: u64) -> (r: bool)
        requires
            old(self).wf(),
        ensures
            final(self).wf(),
            r == (now_ms >= old(self).last_frame_time_ms + Self::interval_ms(
                old(self).target_fps,
            )),
            r ==> *final(self) == (FramePacer {
                last_frame_time_ms: now_ms,
                frame_count: old(self).frame_count.wrapping_add(1),
                ..*old(self)
            }),
            !r ==> *final(self) == *old(self),
    {
        let spf = self.spf();
        if now_ms >= spf && now_ms - spf >= self.last_frame_time_ms {
            self.last_frame_time_ms = now_ms;
            self.frame_count = self.frame_count.wrapping_add(1);
            true
        } else {
            false
        }
    }

    /// Milliseconds still to wait before the next frame is due; zero when it
    /// is already due.
    pub fn time_until_next_ms(&self, now_ms: u64) -> (r: u64)
        requires
            self.wf(),
        ensures
            r == (if now_ms >= self.last_frame_time_ms + Self::interval_ms(self.target_fps) {
                0int
            } else if self.last_frame_time_ms + Self::interval_ms(self.target_fps) - now_ms
                <= u64::MAX {
                self.last_frame_time_ms + Self::interval_ms(self.target_fps) - now_ms
            } else {
                u64::MAX as int
            }),
    {
        let spf = self.spf();
        if now_ms >= spf && now_ms - spf >= self.last_frame_time_ms {
            0
        } else if now_ms >= self.last_frame_time_ms {
            spf - (now_ms - self.last_frame_time_ms)
        } else {
            spf.saturating_add(self.last_frame_time_ms - now_ms)
        }
    }

    /// Frames released since construction or the last reset.
    pub fn frame_count(&self) -> (r: u64)
        ensures
            r == self.spec_frame_count(),
    {
        self.frame_count
    }

    /// Restarts the frame counter and the pacing clock at `now_ms`.
    pub fn reset(&mut self, now_ms: u64)
        ensures
            *final(self) == (FramePacer {
                frame_count: 0,
                start_time_ms: now_ms,
                last_frame_time_ms: now_ms,
                ..*old(self)
            }),
    {
        self.frame_count = 0;
        self.start_time_ms = now_ms;
        self.last_frame_time_ms = now_ms;
    }

    /// Changes the target frame rate.
    pub fn set_fps(&mut self, fps: u32)
        requires
            fps >= 1,
        ensures
            final(self).wf(),
            *final(self) == (FramePacer { target_fps: fps, ..*old(self) }),
    {
        self.target_fps = fps;
    }

    /// The target frame rate.
    pub fn target_fps(&self) -> (r: u32)
        ensures
            r == self.spec_target_fps(),
    {
        self.target_fps
    }
}

/// Adaptive frame pacer: keeps `target_fps` within `[min_fps, max_fps]`
/// while reacting to reported packet loss and slow cycles.
pub struct AdaptiveFramePacer {
    /// The underlying fixed-rate pacer.
    pub pacer: FramePacer,
    /// Lowest rate the controller may fall to; always at least 1.
    pub min_fps: u32,
    /// Highest rate the controller may rise to.
    pub max_fps: u32,
    /// Consecutive slow-cycle reports since the last fast cycle or rate cut.
    pub consecutive_slow_frames: u32,
}

/// A rate reduced to `num/den` of `fps`, never below `min_fps`.
pub open spec fn reduced_fps(fps: u32, num: int, den: int, min_fps: u32) -> int
    recommends
        den >= 1,
{
    let stepped = fps * num / den;
    if stepped >= min_fps {
        stepped
    } else {
        min_fps as int
    }
}

/// A rate raised to `num/den` of `fps`, never above `max_fps`.
pub open spec fn raised_fps(fps: u32, num: int, den: int, max_fps: u32) -> int
    recommends
        den >= 1,
{
    let stepped = fps * num / den;
    if stepped <= max_fps {
        stepped
    } else {
        max_fps as int
    }
}

impl AdaptiveFramePacer {
    /// The adaptive pacer's invariant: the target rate always stays within
    /// the configured band.
    pub open spec fn wf(self) -> bool {
        &&& 1 <= self.min_fps
        &&& self.min_fps <= self.pacer.spec_target_fps()
        &&& self.pacer.spec_target_fps() <= self.max_fps
    }

    /// The current target frame rate.
    pub open spec fn spec_target_fps(self) -> u32 {
        self.pacer.spec_target_fps()
    }

    /// The lowest rate the controller may fall to.
    pub open spec fn spec_min_fps(self) -> u32 {
        self.min_fps
    }

    /// The highest rate the controller may rise to.
    pub open spec fn spec_max_fps(self) -> u32 {
        self.max_fps
    }

    /// Consecutive slow-cycle reports seen since the last fast cycle or
    /// rate reduction.
    pub open spec fn spec_consecutive_slow_frames(self) -> u32 {
        self.consecutive_slow_frames
    }

    pub fn new(default_fps: u32, min_fps: u32, max_fps: u32, now_ms: u64) -> (p: Self)
        requires
            1 <= min_fps <= default_fps <= max_fps,
        ensures
            p.wf(),
            p.spec_target_fps() == default_fps,
            p.spec_min_fps() == min_fps,
            p.spec_max_fps() == max_fps,
            p.spec_consecutive_slow_frames() == 0,
    {
        AdaptiveFramePacer {
            pacer: FramePacer::new(default_fps, now_ms),
            min_fps,
            max_fps,
            consecutive_slow_frames: 0,
        }
    }

    /// See [`FramePacer::should_capture`]; the adaptive state is unchanged.
    pub fn should_capture(&mut self, now_ms: u64) -> (r: bool)
        requires
            old(self).wf(),
        ensures
            final(self).wf(),
            final(self).min_fps == old(self).min_fps,
            final(self).max_fps == old(self).max_fps,
            final(self).spec_target_fps() == old(self).spec_target_fps(),
            final(self).consecutive_slow_frames == old(self).consecutive_slow_frames,
            r == (now_ms >= old(self).pacer.spec_last_frame_time_ms()
                + FramePacer::interval_ms(old(self).spec_target_fps())),
    {
        self.pacer.should_capture(now_ms)
    }

    /// See [`FramePacer::time_until_next_ms`].
    pub fn time_until_next_ms(&self, now_ms: u64) -> (r: u64)
        requires
            self.wf(),
        ensures
            r == (if now_ms >= self.pacer.last_frame_time_ms + FramePacer::interval_ms(
                self.pacer.target_fps,
            ) {
                0int
            } else if self.pacer.last_frame_time_ms + FramePacer::interval_ms(self.pacer.target_fps)
                - now_ms <= u64::MAX {
                self.pacer.last_frame_time_ms + FramePacer::interval_ms(self.pacer.target_fps)
                    - now_ms
            } else {
                u64::MAX as int
            }),
    {
        self.pacer.time_until_next_ms(now_ms)
    }

    /// Applies a packet-loss report, in permille of packets lost.  Loss at
    /// or above the high-water mark cuts the target rate to 8/10 (clamped
    /// below by `min_fps`); loss below half the low-water mark raises it to
    /// 11/10 (clamped above by `max_fps`); anything between leaves the rate
    /// alone.  The target rate never leaves `[min_fps, max_fps]`.
    pub fn adjust_for_packet_loss(&mut self, loss_permille: u32)
        requires
            old(self).wf(),
        ensures
            final(self).wf(),
            final(self).min_fps == old(self).min_fps,
            final(self).max_fps == old(self).max_fps,
            final(self).consecutive_slow_frames == old(self).consecutive_slow_frames,
            loss_permille > LOSS_HIGH_WATER_PERMILLE ==> final(self).spec_target_fps() == reduced_fps(
                old(self).spec_target_fps(),
                8,
                10,
                old(self).min_fps,
            ),
            loss_permille < LOSS_LOW_WATER_PERMILLE / 2 ==> final(self).spec_target_fps() == raised_fps(
                old(self).spec_target_fps(),
                11,
                10,
                old(self).max_fps,
            ),
            LOSS_LOW_WATER_PERMILLE / 2 <= loss_permille <= LOSS_HIGH_WATER_PERMILLE
                ==> final(self).spec_target_fps() == old(self).spec_target_fps(),
            old(self).min_fps <= final(self).spec_target_fps() <= old(self).max_fps,
    {
        let target = self.pacer.target_fps();
        if loss_permille > LOSS_HIGH_WATER_PERMILLE {
            let stepped = ((target as u64) * 8 / 10) as u32;
            let new_fps = if stepped >= self.min_fps {
                stepped
            } else {
                self.min_fps
            };
            proof {
                assert((target as u64) * 8 / 10 == target * 8 / 10) by (nonlinear_arith);
                assert(target * 8 / 10 <= target) by (nonlinear_arith);
            }
            self.pacer.set_fps(new_fps);
        } else if loss_permille < LOSS_LOW_WATER_PERMILLE / 2 {
            let stepped64 = (target as u64) * 11 / 10;
            let new_fps = if stepped64 <= self.max_fps as u64 {
                stepped64 as u32
            } else {
                self.max_fps
            };
            proof {
                assert((target as u64) * 11 / 10 == target * 11 / 10) by (nonlinear_arith);
                assert(target * 11 / 10 >= target) by (nonlinear_arith);
            }
            self.pacer.set_fps(new_fps);
        }
    }

    /// Applies a cycle-latency report.  A cycle longer than twice the
    /// current inter-frame interval counts as slow; the fifth consecutive
    /// slow cycle cuts the target rate to 9/10 (clamped below by `min_fps`)
    /// and restarts the count; any fast cycle restarts the count.  The
    /// target rate never leaves `[min_fps, max_fps]`.
    pub fn adjust_for_slow_frame(&mut self, frame_time_ms: u64)
        requires
            old(self).wf(),
        ensures
            final(self).wf(),
            final(self).min_fps == old(self).min_fps,
            final(self).max_fps == old(self).max_fps,
            frame_time_ms <= 2 * FramePacer::interval_ms(old(self).spec_target_fps()) ==> (
            final(self).spec_target_fps() == old(self).spec_target_fps()
                && final(self).consecutive_slow_frames == 0),
            frame_time_ms > 2 * FramePacer::interval_ms(old(self).spec_target_fps()) ==> (if old(
                self,
            ).consecutive_slow_frames + 1 >= SLOW_CYCLE_LIMIT {
                final(self).spec_target_fps() == reduced_fps(
                    old(self).spec_target_fps(),
                    9,
                    10,
                    old(self).min_fps,
                ) && final(self).consecutive_slow_frames == 0
            } else {
                final(self).spec_target_fps() == old(self).spec_target_fps()
                    && final(self).consecutive_slow_frames == old(self).consecutive_slow_frames + 1
            }),
            old(self).min_fps <= final(self).spec_target_fps() <= old(self).max_fps,
    {
        let target = self.pacer.target_fps();
        let target_frame_time = 1000 / (target as u64);
        if frame_time_ms > 2 * target_frame_time {
            if self.consecutive_slow_frames >= SLOW_CYCLE_LIMIT - 1 {
                let stepped = ((target as u64) * 9 / 10) as u32;
                let new_fps = if stepped >= self.min_fps {
                    stepped
                } else {
                    self.min_fps
                };
                proof {
                    assert((target as u64) * 9 / 10 == target * 9 / 10) by (nonlinear_arith);
                    assert(target * 9 / 10 <= target) by (nonlinear_arith);
                }
                self.pacer.set_fps(new_fps);
                self.consecutive_slow_frames = 0;
            } else {
                self.consecutive_slow_frames = self.consecutive_slow_frames + 1;
            }
        } else {
            self.consecutive_slow_frames = 0;
        }
    }

    /// The current target frame rate.
    pub fn target_fps(&self) -> (r: u32)
        ensures
            r == self.spec_target_fps(),
    {
        self.pacer.target_fps()
    }

    /// Frames released since construction.
    pub fn frame_count(&self) -> (r: u64)
        ensures
            r == self.pacer.spec_frame_count(),
    {
        self.pacer.frame_count()
    }
}

} // verus!
