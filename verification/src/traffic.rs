use vstd::prelude::*;

verus! {

/// Density remeasure cadence, ticks.
pub const DENSITY_INTERVAL: u32 = 15;

/// Low-pass step: density moves at most this much toward its target per
/// remeasure.
pub const DENSITY_STEP: u8 = 5;

/// Live congestion state of one road segment. `density` is 0–100;
/// `blocked` flags a segment whose instantaneous load exceeded its lane
/// capacity. A segment without one has never been trafficked.
#[derive(Clone, Copy, PartialEq, Eq, Debug, Structural)]
pub struct SegmentTraffic {
    pub density: u8,
    pub blocked: bool,
}

/// Whether the density pass runs on `tick`.
pub fn density_due(tick: u32) -> (r: bool)
    ensures
        r == (tick % DENSITY_INTERVAL == 0),
{
    tick % DENSITY_INTERVAL == 0
}

/// Lane capacity in vehicles: the floored footprint count, at least one.
pub open spec fn spec_capacity(slots: u32) -> int {
    if slots == 0 { 1 } else { slots as int }
}

/// The density a segment's load pulls toward: load as a percentage of
/// capacity, saturating at 100.
pub open spec fn spec_target(count: u32, slots: u32) -> int {
    let pct = (count as int * 100) / spec_capacity(slots);
    if pct > 100 { 100 } else { pct }
}

/// One low-pass step from `density` toward `target`.
pub open spec fn spec_step(density: int, target: int) -> int {
    if target > density {
        if density + DENSITY_STEP < target { density + DENSITY_STEP } else { target }
    } else {
        if density - DENSITY_STEP > target { density - DENSITY_STEP } else { target }
    }
}

/// A segment's state after one remeasure, and whether it changed.
pub open spec fn spec_remeasure(current: Option<SegmentTraffic>, count: u32, slots: u32) -> (
    Option<SegmentTraffic>,
    bool,
) {
    let target = spec_target(count, slots);
    let blocked = count as int > spec_capacity(slots);
    match current {
        Some(t) => {
            let stepped = spec_step(t.density as int, target);
            if stepped != t.density as int || blocked != t.blocked {
                (Some(SegmentTraffic { density: stepped as u8, blocked }), true)
            } else {
                (Some(t), false)
            }
        },
        None => {
            if target > 0 || blocked {
                let first = if target < DENSITY_STEP { target } else { DENSITY_STEP as int };
                (Some(SegmentTraffic { density: first as u8, blocked }), true)
            } else {
                (None, false)
            }
        },
    }
}

/// The density target for `count` vehicles on a segment of `slots`
/// vehicle footprints (0 counts as 1).
pub fn density_target(count: u32, slots: u32) -> (r: u8)
    ensures
        r as int == spec_target(count, slots),
        r <= 100,
{
    let capacity: u64 = if slots == 0 { 1 } else { slots as u64 };
    let pct: u64 = (count as u64 * 100) / capacity;
    if pct > 100 { 100 } else { pct as u8 }
}

/// Remeasure one segment: low-pass its density toward the measured load and
/// flag it blocked when the load exceeds the lane capacity. A segment seen
/// for the first time enters with at most one step of density. Returns the
/// new state and whether anything changed.
pub fn remeasure(current: Option<SegmentTraffic>, count: u32, slots: u32) -> (r: (
    Option<SegmentTraffic>,
    bool,
))
    ensures
        r == spec_remeasure(current, count, slots),
{
    let target = density_target(count, slots);
    let capacity: u32 = if slots == 0 { 1 } else { slots };
    let blocked = count > capacity;
    match current {
        Some(t) => {
            let stepped: u8 = if target > t.density {
                let up = t.density.saturating_add(DENSITY_STEP);
                if up < target { up } else { target }
            } else {
                let down = t.density.saturating_sub(DENSITY_STEP);
                if down > target { down } else { target }
            };
            if stepped != t.density || blocked != t.blocked {
                (Some(SegmentTraffic { density: stepped, blocked }), true)
            } else {
                (Some(t), false)
            }
        },
        None => {
            if target > 0 || blocked {
                let first: u8 = if target < DENSITY_STEP { target } else { DENSITY_STEP };
                (Some(SegmentTraffic { density: first, blocked }), true)
            } else {
                (None, false)
            }
        },
    }
}

/// Occurrences of `x` in `s`.
pub open spec fn count_in(s: Seq<u64>, x: u64) -> nat
    decreases s.len(),
{
    if s.len() == 0 {
        0
    } else {
        count_in(s.drop_last(), x) + if s.last() == x { 1nat } else { 0nat }
    }
}

/// Vehicles on each segment of `segments`: how often it occurs in
/// `occupied`, the segment under each vehicle on the road.
pub fn segment_loads(segments: &Vec<u64>, occupied: &Vec<u64>) -> (r: Vec<u32>)
    requires
        occupied.len() <= u32::MAX,
    ensures
        r.len() == segments.len(),
        forall|i: int| 0 <= i < segments.len() ==> r[i] == count_in(occupied@, #[trigger] segments@[i]),
{
    let mut loads: Vec<u32> = Vec::new();
    let mut i: usize = 0;
    while i < segments.len()
        invariant
            i <= segments.len(),
            occupied.len() <= u32::MAX,
            loads.len() == i,
            forall|k: int| 0 <= k < i ==> loads[k] == count_in(occupied@, #[trigger] segments@[k]),
        decreases segments.len() - i,
    {
        let seg = segments[i];
        let mut n: u32 = 0;
        let mut j: usize = 0;
        while j < occupied.len()
            invariant
                j <= occupied.len(),
                occupied.len() <= u32::MAX,
                n == count_in(occupied@.subrange(0, j as int), seg),
                n <= j,
            decreases occupied.len() - j,
        {
            proof {
                assert(occupied@.subrange(0, j as int + 1).drop_last() =~= occupied@.subrange(0, j as int));
            }
            if occupied[j] == seg {
                n = n + 1;
            }
            j = j + 1;
        }
        proof {
            assert(occupied@.subrange(0, occupied.len() as int) =~= occupied@);
        }
        loads.push(n);
        i = i + 1;
    }
    loads
}

/// The whole density pass: every segment remeasured against its load, and
/// whether any of them changed (the routing snapshot's congestion version
/// moves on exactly then).
pub fn measure_density(
    states: &Vec<Option<SegmentTraffic>>,
    loads: &Vec<u32>,
    slots: &Vec<u32>,
) -> (r: (Vec<Option<SegmentTraffic>>, bool))
    requires
        loads.len() == states.len(),
        slots.len() == states.len(),
    ensures
        r.0.len() == states.len(),
        forall|i: int|
            0 <= i < states.len() ==> r.0[i] == (#[trigger] spec_remeasure(states[i], loads[i], slots[i])).0,
        r.1 == exists|i: int| 0 <= i < states.len() && (#[trigger] spec_remeasure(states[i], loads[i], slots[i])).1,
{
    let mut out: Vec<Option<SegmentTraffic>> = Vec::new();
    let mut changed = false;
    let mut i: usize = 0;
    while i < states.len()
        invariant
            i <= states.len(),
            loads.len() == states.len(),
            slots.len() == states.len(),
            out.len() == i,
            forall|k: int|
                0 <= k < i ==> out[k] == (#[trigger] spec_remeasure(states[k], loads[k], slots[k])).0,
            changed == exists|k: int| 0 <= k < i && (#[trigger] spec_remeasure(states[k], loads[k], slots[k])).1,
        decreases states.len() - i,
    {
        let (next, moved) = remeasure(states[i], loads[i], slots[i]);
        out.push(next);
        proof {
            if moved {
                assert(spec_remeasure(states[i as int], loads[i as int], slots[i as int]).1);
            }
        }
        changed = changed || moved;
        i = i + 1;
    }
    (out, changed)
}

/// A remeasure never carries density past its target, moves it by at most
/// one step, and flags the segment blocked exactly when the load exceeds
/// the lane capacity.
pub proof fn law_density_never_overshoots(current: SegmentTraffic, count: u32, slots: u32)
    ensures
        ({
            let next = spec_remeasure(Some(current), count, slots).0.unwrap();
            let target = spec_target(count, slots);
            let d = current.density as int;
            &&& d <= target ==> d <= next.density <= target
            &&& d >= target ==> target <= next.density <= d
            &&& next.density - d <= DENSITY_STEP as int
            &&& d - next.density <= DENSITY_STEP as int
            &&& next.blocked == (count as int > spec_capacity(slots))
        }),
{
}

/// Every remeasure of a segment away from its target brings it strictly
/// closer: under a steady load the density settles on the target.
pub proof fn law_density_settles_on_target(current: SegmentTraffic, count: u32, slots: u32)
    requires
        current.density as int != spec_target(count, slots),
    ensures
        ({
            let next = spec_remeasure(Some(current), count, slots).0.unwrap();
            let target = spec_target(count, slots);
            let before = if current.density >= target { current.density - target } else { target - current.density };
            let after = if next.density >= target { next.density - target } else { target - next.density };
            after < before
        }),
{
}

} // verus!
