//! Frame sampling: the pure plan arithmetic and the per-frame selection rule
//! that the video decode loop follows.
use vstd::prelude::*;

verus! {

/// Which frames of a video to hash: indices `start`, `start + step`, ... up
/// to `take` frames in all.
#[derive(Clone, Copy, Debug, PartialEq, Eq, Structural)]
pub struct SamplingPlan {
    pub start: usize,
    pub step: usize,
    pub take: usize,
}

/// Where sampling begins: the requested start when it lies inside the video,
/// else the middle, which avoids biasing the samples toward the intro.
pub open spec fn spec_plan_start(total: nat, sample_start: nat) -> nat {
    if sample_start < total {
        sample_start
    } else {
        total / 2
    }
}

/// Length of the sampled window: all frames from the start, clipped to the
/// requested window when one was given.
pub open spec fn spec_plan_window(total: nat, sample_start: nat, sample_window: nat) -> nat {
    let available = (total - spec_plan_start(total, sample_start)) as nat;
    if sample_window == 0 || available <= sample_window {
        available
    } else {
        sample_window
    }
}

/// Stride between samples: even spacing across the window, at least one.
pub open spec fn spec_plan_step(total: nat, sample_count: nat, sample_start: nat, sample_window: nat) -> nat {
    if sample_count <= 1 {
        1
    } else {
        let w = spec_plan_window(total, sample_start, sample_window);
        if w / sample_count >= 1 {
            w / sample_count
        } else {
            1
        }
    }
}

/// The full plan of spacing rules above; an empty video or a request for zero
/// samples yields an empty plan.
pub open spec fn spec_plan(total: nat, sample_count: nat, sample_start: nat, sample_window: nat) -> SamplingPlan {
    if total == 0 || sample_count == 0 {
        SamplingPlan { start: 0, step: 1, take: 0 }
    } else {
        let start = spec_plan_start(total, sample_start);
        let step = spec_plan_step(total, sample_count, sample_start, sample_window);
        let w = spec_plan_window(total, sample_start, sample_window);
        let take = if w / step <= sample_count {
            w / step
        } else {
            sample_count
        };
        SamplingPlan { start: start as usize, step: step as usize, take: take as usize }
    }
}

/// Compute the sampling plan for a video of `total_frames` frames:
/// `sample_count` frames evenly spaced from `sample_start` over a window of
/// at most `sample_window` frames (zero meaning the rest of the video).
pub fn plan_even_sampling(
    total_frames: usize,
    sample_count: usize,
    sample_start: usize,
    sample_window: usize,
) -> (p: SamplingPlan)
    ensures
        p == spec_plan(total_frames as nat, sample_count as nat, sample_start as nat, sample_window as nat),
        p.step >= 1,
        p.take <= sample_count,
{
    if total_frames == 0 || sample_count == 0 {
        return SamplingPlan { start: 0, step: 1, take: 0 };
    }
    let start: usize = if sample_start < total_frames {
        sample_start
    } else {
        total_frames / 2
    };
    let available: usize = total_frames - start;
    let window_len: usize = if sample_window == 0 || available <= sample_window {
        available
    } else {
        sample_window
    };
    let step: usize = if sample_count <= 1 {
        1
    } else {
        let s = window_len / sample_count;
        if s >= 1 {
            s
        } else {
            1
        }
    };
    let take: usize = {
        let t = window_len / step;
        if t <= sample_count {
            t
        } else {
            sample_count
        }
    };
    SamplingPlan { start, step, take }
}

/// Whether a frame at index `idx` is due under the plan's spacing rule, given
/// that `remaining` more frames are still wanted.
pub open spec fn spec_should_take(idx: nat, start: nat, step: nat, remaining: nat) -> bool {
    remaining > 0 && idx >= start && (idx - start) % (step as int) == 0
}

/// Walks a video's frames in presentation order and decides, one frame at a
/// time, whether that frame is among the planned samples.
pub struct SampleSelector {
    pub start: usize,
    pub step: usize,
    pub remaining: usize,
    pub idx: usize,
}

impl SampleSelector {
    pub open spec fn wf(self) -> bool {
        self.step >= 1
    }

    /// Start selecting for a plan: no frames seen, all of `take` still wanted.
    pub fn new(plan: &SamplingPlan) -> (s: SampleSelector)
        requires
            plan.step >= 1,
        ensures
            s.wf(),
            s.start == plan.start,
            s.step == plan.step,
            s.remaining == plan.take,
            s.idx == 0,
    {
        SampleSelector { start: plan.start, step: plan.step, remaining: plan.take, idx: 0 }
    }

    /// All planned samples have been taken; later frames can be skipped.
    pub fn done(&self) -> (r: bool)
        ensures
            r == (self.remaining == 0),
    {
        self.remaining == 0
    }

    /// Observe the next frame in order. Returns whether this frame is one of
    /// the planned samples: it is taken exactly when samples are still wanted,
    /// the frame is at or past the start, and it falls on the stride.
    pub fn observe(&mut self) -> (taken: bool)
        requires
            old(self).wf(),
            old(self).idx < usize::MAX,
        ensures
            final(self).wf(),
            taken == spec_should_take(
                old(self).idx as nat,
                old(self).start as nat,
                old(self).step as nat,
                old(self).remaining as nat,
            ),
            final(self).start == old(self).start,
            final(self).step == old(self).step,
            final(self).idx == old(self).idx + 1,
            final(self).remaining == if taken {
                (old(self).remaining - 1) as int
            } else {
                old(self).remaining as int
            },
    {
        let take = self.remaining > 0 && self.idx >= self.start && (self.idx - self.start)
            % self.step == 0;
        if take {
            self.remaining = self.remaining - 1;
        }
        self.idx = self.idx + 1;
        take
    }
}

} // verus!
