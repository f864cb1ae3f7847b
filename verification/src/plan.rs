use vstd::prelude::*;
use crate::clock::FRAMES_PER_GAME_DAY;

verus! {

/// Length of one plan period, game days.
pub const PLAN_PERIOD_DAYS: u32 = 60;

/// Length of one plan period, frames.
pub const PLAN_PERIOD_FRAMES: u32 = 36000;

/// Households the plan wants housed per period number.
pub const HOUSED_PER_PERIOD: u32 = 8;

/// `x - y` reduced into the `u32` ring: the frames from `y` forward to `x`
/// on a wrapping clock.
pub open spec fn wrap_sub(x: u32, y: u32) -> int {
    (x as int - y as int) % 0x1_0000_0000int
}

/// The calendar half of the state plan: which period is running and the
/// frame it opened on. The quotas' float progress and the treasury live
/// with the renderer-facing side.
#[derive(Clone, Copy, PartialEq, Eq, Debug, Structural)]
pub struct PlanCalendar {
    pub period: u32,
    pub period_started: u32,
}

impl PlanCalendar {
    /// The first period opens on frame 0.
    pub fn new() -> (r: PlanCalendar)
        ensures
            r.period == 1,
            r.period_started == 0,
    {
        PlanCalendar { period: 1, period_started: 0 }
    }

    /// The frame on which the running period closes (wrapping).
    pub fn deadline(&self) -> (r: u32)
        ensures
            r as int == (self.period_started as int + PLAN_PERIOD_FRAMES) % 0x1_0000_0000int,
    {
        self.period_started.wrapping_add(PLAN_PERIOD_FRAMES)
    }

    /// Whole game days from `frame` to the deadline.
    pub fn days_left(&self, frame: u32) -> (r: u32)
        ensures
            r as int == wrap_sub(
                ((self.period_started as int + PLAN_PERIOD_FRAMES) % 0x1_0000_0000int) as u32,
                frame,
            ) / FRAMES_PER_GAME_DAY as int,
    {
        self.deadline().wrapping_sub(frame) / FRAMES_PER_GAME_DAY
    }

    /// Whether the running period has run its full length at `frame`.
    pub fn rollover_due(&self, frame: u32) -> (r: bool)
        ensures
            r == (wrap_sub(frame, self.period_started) >= PLAN_PERIOD_FRAMES),
    {
        frame.wrapping_sub(self.period_started) >= PLAN_PERIOD_FRAMES
    }

    /// Close the running period at `frame` and open the next one there.
    pub fn roll_over(&mut self, frame: u32)
        requires
            old(self).period < u32::MAX,
        ensures
            final(self).period == old(self).period + 1,
            final(self).period_started == frame,
    {
        self.period = self.period + 1;
        self.period_started = frame;
    }
}

/// The housing quota of period `period`.
pub fn housed_target(period: u32) -> (r: u32)
    requires
        period <= u32::MAX / HOUSED_PER_PERIOD,
    ensures
        r == HOUSED_PER_PERIOD * period,
{
    HOUSED_PER_PERIOD * period
}

/// Whether quota progress is remeasured on `frame` (once per game day).
pub fn quotas_due(frame: u32) -> (r: bool)
    ensures
        r == (frame % FRAMES_PER_GAME_DAY == 0),
{
    frame % FRAMES_PER_GAME_DAY == 0
}

/// Households that hold a dwelling, out of `homes` (one entry per
/// household).
pub open spec fn housed_count(homes: Seq<Option<u64>>) -> nat
    decreases homes.len(),
{
    if homes.len() == 0 {
        0
    } else {
        housed_count(homes.drop_last()) + if homes.last() is Some { 1nat } else { 0nat }
    }
}

/// Count the housed households, the figure the housing quota measures.
pub fn count_housed(homes: &Vec<Option<u64>>) -> (r: u32)
    requires
        homes.len() <= u32::MAX,
    ensures
        r == housed_count(homes@),
{
    let mut n: u32 = 0;
    let mut i: usize = 0;
    while i < homes.len()
        invariant
            i <= homes.len(),
            homes.len() <= u32::MAX,
            n == housed_count(homes@.subrange(0, i as int)),
            n <= i,
        decreases homes.len() - i,
    {
        proof {
            assert(homes@.subrange(0, i as int + 1).drop_last() =~= homes@.subrange(0, i as int));
        }
        if homes[i].is_some() {
            n = n + 1;
        }
        i = i + 1;
    }
    proof {
        assert(homes@.subrange(0, homes.len() as int) =~= homes@);
    }
    n
}

/// A period opened at `frame` by a rollover is not due at that frame and
/// has the full period of days left.
pub proof fn law_fresh_period_runs_its_full_length(cal: PlanCalendar, frame: u32)
    requires
        cal.period < u32::MAX,
    ensures
        ({
            let next = PlanCalendar { period: (cal.period + 1) as u32, period_started: frame };
            &&& !(wrap_sub(frame, next.period_started) >= PLAN_PERIOD_FRAMES)
            &&& wrap_sub(
                ((next.period_started as int + PLAN_PERIOD_FRAMES) % 0x1_0000_0000int) as u32,
                frame,
            ) / FRAMES_PER_GAME_DAY as int == PLAN_PERIOD_DAYS
        }),
{
    let d = ((frame as int + PLAN_PERIOD_FRAMES) % 0x1_0000_0000int) as u32;
    assert(wrap_sub(frame, frame) == 0);
    assert(wrap_sub(d, frame) == PLAN_PERIOD_FRAMES) by {
        if frame as int + PLAN_PERIOD_FRAMES < 0x1_0000_0000int {
            assert(d as int == frame as int + PLAN_PERIOD_FRAMES);
        } else {
            assert(d as int == frame as int + PLAN_PERIOD_FRAMES - 0x1_0000_0000int);
        }
    }
}

} // verus!
