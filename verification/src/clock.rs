use vstd::prelude::*;

verus! {

/// Sim frames per game day.
pub const FRAMES_PER_GAME_DAY: u32 = 600;

/// Scheduler passes executed per render frame before the excess real time is
/// dropped: a slow render frame slows the sim instead of snowballing the
/// backlog.
pub const MAX_PASSES_PER_UPDATE: u32 = 3;

/// Advances once per `SimTick` run; wrap-safe (compare with `wrapping_sub`).
#[derive(Clone, Copy, PartialEq, Eq, Debug, Structural)]
pub struct FrameIndex(pub u32);

/// Advances once per scheduler pass regardless of speed, including while
/// paused; wrap-safe like `FrameIndex`.
#[derive(Clone, Copy, PartialEq, Eq, Debug, Structural)]
pub struct TickIndex(pub u32);

/// Speed is a substep multiplier, never a time rescale: speed n runs the
/// whole tick schedule n times per scheduler pass. Pause is 0 substeps.
#[derive(Clone, Copy, PartialEq, Eq, Debug, Structural)]
pub enum SimSpeed {
    Paused,
    Normal,
    Double,
    Quad,
}

/// Runs of the tick schedule per scheduler pass at `speed`.
pub open spec fn spec_substeps(speed: SimSpeed) -> nat {
    match speed {
        SimSpeed::Paused => 0,
        SimSpeed::Normal => 1,
        SimSpeed::Double => 2,
        SimSpeed::Quad => 4,
    }
}

/// `x + n` reduced into the `u32` ring.
pub open spec fn wrap_add(x: u32, n: int) -> u32 {
    ((x as int + n) % 0x1_0000_0000int) as u32
}

impl SimSpeed {
    pub fn substeps(self) -> (r: u32)
        ensures
            r == spec_substeps(self),
    {
        match self {
            SimSpeed::Paused => 0,
            SimSpeed::Normal => 1,
            SimSpeed::Double => 2,
            SimSpeed::Quad => 4,
        }
    }
}

/// The two clocks the driver advances.
#[derive(Clone, Copy, PartialEq, Eq, Debug, Structural)]
pub struct ClockState {
    pub frame: FrameIndex,
    pub tick: TickIndex,
}

/// What one render update of the driver did: the frame index of every tick
/// schedule run it performed (in order), the clocks afterwards, and whether
/// the real-time backlog is to be dropped.
pub struct DriverUpdate {
    pub runs: Vec<u32>,
    pub clock: ClockState,
    pub passes: u32,
    pub drop_backlog: bool,
}

/// Passes the driver performs when `due` are owed by real time.
pub open spec fn spec_passes(due: u32) -> u32 {
    if due < MAX_PASSES_PER_UPDATE { due } else { MAX_PASSES_PER_UPDATE }
}

impl ClockState {
    /// One scheduler pass: the tick advances once; the frame advances once per
    /// substep, and the tick schedule runs at each of those frames. Returns the
    /// frame index of each run in order.
    pub fn pass(&mut self, speed: SimSpeed) -> (runs: Vec<u32>)
        ensures
            final(self).tick.0 == wrap_add(old(self).tick.0, 1),
            final(self).frame.0 == wrap_add(old(self).frame.0, spec_substeps(speed) as int),
            runs@.len() == spec_substeps(speed),
            forall|k: int|
                0 <= k < runs@.len() ==> #[trigger] runs@[k] == wrap_add(old(self).frame.0, k + 1),
    {
        self.tick = TickIndex(self.tick.0.wrapping_add(1));
        let n = speed.substeps();
        let mut runs: Vec<u32> = Vec::new();
        let ghost start = self.frame.0;
        let mut i: u32 = 0;
        while i < n
            invariant
                i <= n,
                n == spec_substeps(speed),
                self.frame.0 == wrap_add(start, i as int),
                runs@.len() == i,
                forall|k: int| 0 <= k < i ==> #[trigger] runs@[k] == wrap_add(start, k + 1),
                self.tick.0 == wrap_add(old(self).tick.0, 1),
                start == old(self).frame.0,
            decreases n - i,
        {
            let next = self.frame.0.wrapping_add(1);
            proof {
                assert(wrap_add(start, i as int + 1) == wrap_add(self.frame.0, 1)) by {
                    lemma_wrap_add_assoc(start, i as int, 1);
                }
            }
            self.frame = FrameIndex(next);
            runs.push(next);
            i = i + 1;
        }
        runs
    }

    /// One render update: real time owes `due` passes; at most
    /// `MAX_PASSES_PER_UPDATE` run, and when that cap is reached the rest of
    /// the backlog is dropped instead of spiralling.
    pub fn update(&mut self, speed: SimSpeed, due: u32) -> (r: DriverUpdate)
        ensures
            r.passes == spec_passes(due),
            r.drop_backlog == (r.passes == MAX_PASSES_PER_UPDATE),
            r.clock == *final(self),
            final(self).tick.0 == wrap_add(old(self).tick.0, r.passes as int),
            final(self).frame.0 == wrap_add(old(self).frame.0, r.passes * spec_substeps(speed)),
            r.runs@.len() == r.passes * spec_substeps(speed),
            forall|k: int|
                0 <= k < r.runs@.len() ==> #[trigger] r.runs@[k] == wrap_add(old(self).frame.0, k + 1),
    {
        let passes: u32 = if due < MAX_PASSES_PER_UPDATE { due } else { MAX_PASSES_PER_UPDATE };
        let ghost f0 = self.frame.0;
        let ghost t0 = self.tick.0;
        let s = speed.substeps();
        let mut runs: Vec<u32> = Vec::new();
        let mut p: u32 = 0;
        while p < passes
            invariant
                p <= passes <= MAX_PASSES_PER_UPDATE,
                s == spec_substeps(speed),
                self.tick.0 == wrap_add(t0, p as int),
                self.frame.0 == wrap_add(f0, p * s),
                runs@.len() == p * s,
                forall|k: int| 0 <= k < runs@.len() ==> #[trigger] runs@[k] == wrap_add(f0, k + 1),
            decreases passes - p,
        {
            let ghost before = runs@;
            let ghost fb = self.frame.0;
            let ghost tb = self.tick.0;
            let more = self.pass(speed);
            proof {
                lemma_wrap_add_assoc(t0, p as int, 1);
                lemma_wrap_add_assoc(f0, p * s, s as int);
                assert((p + 1) * s == p * s + s) by (nonlinear_arith);
                assert forall|k: int| 0 <= k < more@.len() implies #[trigger] more@[k] == wrap_add(f0, p * s + k + 1) by {
                    lemma_wrap_add_assoc(f0, p * s, k + 1);
                }
            }
            runs.append(&mut more.clone());
            proof {
                assert forall|k: int| 0 <= k < runs@.len() implies #[trigger] runs@[k] == wrap_add(f0, k + 1) by {
                    if k < before.len() {
                        assert(runs@[k] == before[k]);
                    } else {
                        assert(runs@[k] == more@[k - before.len()]);
                    }
                }
            }
            p = p + 1;
        }
        DriverUpdate { runs, clock: *self, passes, drop_backlog: passes == MAX_PASSES_PER_UPDATE }
    }
}

/// Adding in two steps in the `u32` ring is adding once.
pub proof fn lemma_wrap_add_assoc(x: u32, a: int, b: int)
    requires
        a >= 0,
        b >= 0,
    ensures
        wrap_add(wrap_add(x, a), b) == wrap_add(x, a + b),
{
    let m = 0x1_0000_0000int;
    let y = (x as int + a) % m;
    assert(0 <= y < m);
    vstd::arithmetic::div_mod::lemma_add_mod_noop(x as int + a, b, m);
    vstd::arithmetic::div_mod::lemma_mod_twice(b, m);
    vstd::arithmetic::div_mod::lemma_add_mod_noop(y, b, m);
    vstd::arithmetic::div_mod::lemma_mod_twice(x as int + a, m);
}

/// Speed is a substep multiplier: any run of updates advances the tick once
/// per pass and the frame `substeps` times per pass, so the frame count at a
/// given speed is exactly `substeps` times the tick count — and a paused sim
/// keeps ticking while its frames stand still.
pub proof fn law_speed_is_a_substep_multiplier(before: ClockState, after: ClockState, speed: SimSpeed, passes: nat)
    requires
        after.tick.0 == wrap_add(before.tick.0, passes as int),
        after.frame.0 == wrap_add(before.frame.0, (passes * spec_substeps(speed)) as int),
    ensures
        speed == SimSpeed::Paused ==> after.frame == before.frame,
        speed == SimSpeed::Normal ==> after.frame.0 == wrap_add(before.frame.0, passes as int),
        speed == SimSpeed::Quad ==> after.frame.0 == wrap_add(before.frame.0, (4 * passes) as int),
{
    if speed == SimSpeed::Paused {
        assert(passes * 0 == 0) by (nonlinear_arith);
        assert(wrap_add(before.frame.0, 0) == before.frame.0);
    }
    if speed == SimSpeed::Normal {
        assert(passes * 1 == passes) by (nonlinear_arith);
    }
    if speed == SimSpeed::Quad {
        assert(passes * 4 == 4 * passes) by (nonlinear_arith);
    }
}

} // verus!
