//! Commute trips: assigned citizens physically travel home ⇄ work. Departures
//! open at fixed frames of the day plus a personal jitter; a waiting rider
//! gives up on the bus after a while; presence at the workplace is recounted
//! every tick.
use vstd::prelude::*;

use crate::citizens::{Citizen, CitizenEntry, CitizenLocation};
use crate::clock::FRAMES_PER_GAME_DAY;

verus! {

/// Morning departures begin at this frame of the day.
pub const MORNING_FRAME: u32 = 150;
/// Evening departures begin at this frame of the day.
pub const EVENING_FRAME: u32 = 450;
/// Personal departure jitter range, frames.
pub const DEPARTURE_JITTER_FRAMES: u32 = 60;
/// Ticks a commuter waits at a stop before walking the rest.
pub const WAIT_GIVE_UP_TICKS: u32 = 900;

/// Where a trip currently is in its multi-leg plan.
#[derive(Clone, Copy, PartialEq, Eq, Debug, Structural)]
pub enum CommutePhase {
    /// Walking the current route.
    Walk,
    /// Standing at the board stop, queued for a bus.
    Wait { ticks: u32 },
    /// Aboard this bus pawn.
    Ride { bus: u64 },
    /// Between legs: re-plan the walk from where the pawn stands.
    Resume,
}

/// A citizen's personal departure offset (deterministic from the id).
pub open spec fn spec_jitter(id: u64) -> u32 {
    ((id as u32) as int * 7 % 0x1_0000_0000int % (DEPARTURE_JITTER_FRAMES as int)) as u32
}

pub fn departure_jitter(citizen: &Citizen) -> (r: u32)
    ensures
        r == spec_jitter(citizen.id.0),
        r < DEPARTURE_JITTER_FRAMES,
{
    let x = citizen.id.0 as u32;
    let m = x.wrapping_mul(7);
    assert(m == (x as int * 7) % 0x1_0000_0000int);
    m % DEPARTURE_JITTER_FRAMES
}

/// Whether a citizen sets out this frame, and in which direction
/// (`Some(true)`: to work). `attends` is the day's attendance roll, if the
/// citizen has needs.
pub open spec fn spec_departure(frame: u32, location: CitizenLocation, jitter: u32, attends: Option<bool>) -> Option<bool> {
    let day = frame % FRAMES_PER_GAME_DAY;
    match location {
        CitizenLocation::AtHome => if day >= MORNING_FRAME + jitter && day < EVENING_FRAME {
            if attends == Some(false) { None } else { Some(true) }
        } else {
            None
        },
        CitizenLocation::AtWork => if day >= EVENING_FRAME + jitter || day < MORNING_FRAME {
            Some(false)
        } else {
            None
        },
        _ => None,
    }
}

pub fn departure(frame: u32, location: CitizenLocation, jitter: u32, attends: Option<bool>) -> (r: Option<bool>)
    requires
        jitter < DEPARTURE_JITTER_FRAMES,
    ensures
        r == spec_departure(frame, location, jitter, attends),
{
    let day = frame % FRAMES_PER_GAME_DAY;
    match location {
        CitizenLocation::AtHome => {
            if day >= MORNING_FRAME + jitter && day < EVENING_FRAME {
                if attends == Some(false) { None } else { Some(true) }
            } else {
                None
            }
        },
        CitizenLocation::AtWork => {
            if day >= EVENING_FRAME + jitter || day < MORNING_FRAME {
                Some(false)
            } else {
                None
            }
        },
        _ => None,
    }
}

/// The absence law: a citizen rolled absent for the day never sets out for
/// work, at any frame; and nobody leaves home for work outside the morning
/// window.
pub proof fn law_absent_citizens_stay_home(frame: u32, jitter: u32)
    ensures
        spec_departure(frame, CitizenLocation::AtHome, jitter, Some(false)) is None,
        spec_departure(frame, CitizenLocation::AtHome, jitter, None) is Some ==> MORNING_FRAME <= frame % FRAMES_PER_GAME_DAY < EVENING_FRAME,
{
}

/// Departures follow the clock of the day, not the day count: the same
/// frame of any later day decides the same way, for every location. In
/// particular a citizen at work stays there from the morning frame until
/// their evening departure frame (`EVENING_FRAME + jitter`), every day,
/// and a citizen at home leaves for work only inside the morning window.
pub proof fn law_departure_follows_the_day(frame: u32, location: CitizenLocation, jitter: u32, attends: Option<bool>)
    requires
        frame as int + FRAMES_PER_GAME_DAY as int <= u32::MAX,
    ensures
        spec_departure((frame + FRAMES_PER_GAME_DAY) as u32, location, jitter, attends) == spec_departure(
            frame,
            location,
            jitter,
            attends,
        ),
        MORNING_FRAME <= frame % FRAMES_PER_GAME_DAY < EVENING_FRAME + jitter ==> spec_departure(
            frame,
            CitizenLocation::AtWork,
            jitter,
            attends,
        ) is None,
        (frame % FRAMES_PER_GAME_DAY >= EVENING_FRAME + jitter || frame % FRAMES_PER_GAME_DAY < MORNING_FRAME)
            ==> spec_departure(frame, CitizenLocation::AtWork, jitter, attends) == Some(false),
        spec_departure(frame, CitizenLocation::AtHome, jitter, attends) == Some(true) ==> MORNING_FRAME + jitter
            <= frame % FRAMES_PER_GAME_DAY < EVENING_FRAME,
        spec_departure(frame, CitizenLocation::ToWork, jitter, attends) is None,
        spec_departure(frame, CitizenLocation::ToHome, jitter, attends) is None,
{
    assert(((frame + FRAMES_PER_GAME_DAY) as u32) % FRAMES_PER_GAME_DAY == frame % FRAMES_PER_GAME_DAY);
}

/// One tick of waiting at a stop: past the give-up threshold the commuter
/// leaves the queue and walks (`Resume`); otherwise the wait grows.
pub fn wait_step(ticks: u32) -> (r: CommutePhase)
    ensures
        r == if ticks >= WAIT_GIVE_UP_TICKS { CommutePhase::Resume } else { CommutePhase::Wait { ticks: (ticks + 1) as u32 } },
{
    if ticks >= WAIT_GIVE_UP_TICKS {
        CommutePhase::Resume
    } else {
        CommutePhase::Wait { ticks: ticks + 1 }
    }
}

/// Where a finished trip leaves the citizen: at work only when it arrived
/// on the way to work; arrived home, or stranded, they are home.
pub fn trip_end_location(arrived: bool, to_work: bool) -> (r: CitizenLocation)
    ensures
        r == if arrived && to_work { CitizenLocation::AtWork } else { CitizenLocation::AtHome },
{
    if arrived && to_work {
        CitizenLocation::AtWork
    } else {
        CitizenLocation::AtHome
    }
}

/// Citizens among the first `n` physically at work at `workplace`.
pub open spec fn present_at(cs: Seq<CitizenEntry>, workplace: u64, n: int) -> nat
    decreases n,
{
    if n <= 0 {
        0
    } else {
        let c = cs[n - 1].citizen;
        present_at(cs, workplace, n - 1) + if c.location == CitizenLocation::AtWork && c.work == Some(workplace) {
            1nat
        } else {
            0nat
        }
    }
}

/// Presence is recounted from citizen locations: for each workplace (in
/// order), how many of its bound citizens are at work.
pub fn tally_presence(citizens: &Vec<CitizenEntry>, workplaces: &Vec<u64>) -> (r: Vec<u32>)
    requires
        citizens@.len() <= u32::MAX,
    ensures
        r@.len() == workplaces@.len(),
        forall|k: int| 0 <= k < r@.len() ==> r@[k] == present_at(citizens@, workplaces@[k], citizens@.len() as int),
{
    let mut out: Vec<u32> = Vec::new();
    let mut k: usize = 0;
    while k < workplaces.len()
        invariant
            k <= workplaces@.len(),
            citizens@.len() <= u32::MAX,
            out@.len() == k,
            forall|x: int| 0 <= x < k ==> out@[x] == present_at(citizens@, workplaces@[x], citizens@.len() as int),
        decreases workplaces.len() - k,
    {
        let w = workplaces[k];
        let mut n: u32 = 0;
        let mut i: usize = 0;
        while i < citizens.len()
            invariant
                i <= citizens@.len(),
                citizens@.len() <= u32::MAX,
                n == present_at(citizens@, w, i as int),
                n <= i,
            decreases citizens.len() - i,
        {
            let c = citizens[i].citizen;
            if c.location == CitizenLocation::AtWork && c.work == Some(w) {
                n = n + 1;
            }
            i = i + 1;
        }
        out.push(n);
        k = k + 1;
    }
    out
}


/// How far a walk got this tick.
#[derive(Clone, Copy, PartialEq, Eq, Debug, Structural)]
pub enum WalkOutcome {
    /// Still on the route.
    Moving,
    /// Reached the end of the route.
    Arrived,
    /// A leg's segment or lane vanished under the walker.
    Aborted,
}

/// What the world reported about a trip this tick.
#[derive(Clone, Copy, PartialEq, Eq, Debug, Structural)]
pub enum CommuteEvent {
    /// A tick passed (all a waiting rider needs).
    Tick,
    /// Whether the bus being ridden still exists.
    Bus { present: bool },
    /// Whether a walking route from where the pawn stands was found.
    Replanned { found: bool },
    /// How the walk went.
    Walked { outcome: WalkOutcome },
}

/// What the caller does for a trip after a step.
#[derive(Clone, Copy, PartialEq, Eq, Debug, Structural)]
pub enum CommuteAction {
    /// Nothing beyond moving the pawn.
    Continue,
    /// Take the rider out of the queue at this stop.
    LeaveQueue { board: u64 },
    /// Queue the rider at `board`, to alight at `alight`.
    JoinQueue { board: u64, alight: u64 },
    /// The trip is over: the citizen is now at `location`; the pawn goes.
    EndTrip { location: CitizenLocation },
}

/// A planned transit leg: board at one stop, alight at another.
#[derive(Clone, Copy, PartialEq, Eq, Debug, Structural)]
pub struct TransitLeg {
    pub board: u64,
    pub alight: u64,
}

/// The trip state a commuter pawn carries between ticks.
#[derive(Clone, Copy, PartialEq, Eq, Debug, Structural)]
pub struct TripState {
    pub phase: CommutePhase,
    /// The planned transit leg after the current walk: (board, alight).
    pub transit: Option<TransitLeg>,
    pub to_work: bool,
}

/// One tick of a commute trip.
pub open spec fn spec_commute_step(state: TripState, event: CommuteEvent) -> (TripState, CommuteAction) {
    match state.phase {
        CommutePhase::Wait { ticks } => {
            if ticks >= WAIT_GIVE_UP_TICKS {
                let next = TripState { phase: CommutePhase::Resume, transit: None, to_work: state.to_work };
                match state.transit {
                    Some(t) => (next, CommuteAction::LeaveQueue { board: t.board }),
                    None => (next, CommuteAction::Continue),
                }
            } else {
                (
                    TripState { phase: CommutePhase::Wait { ticks: (ticks + 1) as u32 }, ..state },
                    CommuteAction::Continue,
                )
            }
        },
        CommutePhase::Ride { .. } => match event {
            CommuteEvent::Bus { present: false } => (
                TripState { phase: CommutePhase::Resume, ..state },
                CommuteAction::Continue,
            ),
            _ => (state, CommuteAction::Continue),
        },
        CommutePhase::Resume => match event {
            CommuteEvent::Replanned { found: true } => (
                TripState { phase: CommutePhase::Walk, transit: None, to_work: state.to_work },
                CommuteAction::Continue,
            ),
            CommuteEvent::Replanned { found: false } => (
                state,
                CommuteAction::EndTrip { location: CitizenLocation::AtHome },
            ),
            _ => (state, CommuteAction::Continue),
        },
        CommutePhase::Walk => match event {
            CommuteEvent::Walked { outcome: WalkOutcome::Arrived } => match state.transit {
                Some(t) => (
                    TripState { phase: CommutePhase::Wait { ticks: 0 }, ..state },
                    CommuteAction::JoinQueue { board: t.board, alight: t.alight },
                ),
                None => (
                    state,
                    CommuteAction::EndTrip {
                        location: if state.to_work { CitizenLocation::AtWork } else { CitizenLocation::AtHome },
                    },
                ),
            },
            CommuteEvent::Walked { outcome: WalkOutcome::Aborted } => (
                state,
                CommuteAction::EndTrip { location: CitizenLocation::AtHome },
            ),
            _ => (state, CommuteAction::Continue),
        },
    }
}

/// Advance a trip by one tick given what the world reported. A waiting
/// rider gives up past the threshold and re-plans on foot; a rider whose
/// bus vanished re-plans; a re-plan that finds no route strands the
/// citizen home; a walk that arrives either queues for its transit leg or
/// ends the trip.
pub fn commute_step(state: TripState, event: CommuteEvent) -> (r: (TripState, CommuteAction))
    ensures
        r == spec_commute_step(state, event),
{
    match state.phase {
        CommutePhase::Wait { ticks } => {
            if ticks >= WAIT_GIVE_UP_TICKS {
                let next = TripState { phase: CommutePhase::Resume, transit: None, to_work: state.to_work };
                match state.transit {
                    Some(t) => (next, CommuteAction::LeaveQueue { board: t.board }),
                    None => (next, CommuteAction::Continue),
                }
            } else {
                (
                    TripState { phase: CommutePhase::Wait { ticks: ticks + 1 }, transit: state.transit, to_work: state.to_work },
                    CommuteAction::Continue,
                )
            }
        },
        CommutePhase::Ride { .. } => match event {
            CommuteEvent::Bus { present: false } => (
                TripState { phase: CommutePhase::Resume, transit: state.transit, to_work: state.to_work },
                CommuteAction::Continue,
            ),
            _ => (state, CommuteAction::Continue),
        },
        CommutePhase::Resume => match event {
            CommuteEvent::Replanned { found: true } => (
                TripState { phase: CommutePhase::Walk, transit: None, to_work: state.to_work },
                CommuteAction::Continue,
            ),
            CommuteEvent::Replanned { found: false } => (
                state,
                CommuteAction::EndTrip { location: CitizenLocation::AtHome },
            ),
            _ => (state, CommuteAction::Continue),
        },
        CommutePhase::Walk => match event {
            CommuteEvent::Walked { outcome: WalkOutcome::Arrived } => match state.transit {
                Some(t) => (
                    TripState { phase: CommutePhase::Wait { ticks: 0 }, transit: state.transit, to_work: state.to_work },
                    CommuteAction::JoinQueue { board: t.board, alight: t.alight },
                ),
                None => (
                    state,
                    CommuteAction::EndTrip { location: trip_end_location(true, state.to_work) },
                ),
            },
            CommuteEvent::Walked { outcome: WalkOutcome::Aborted } => (
                state,
                CommuteAction::EndTrip { location: CitizenLocation::AtHome },
            ),
            _ => (state, CommuteAction::Continue),
        },
    }
}

/// A trip ends at work only by walking the last route to the end on the
/// way to work with no transit leg left; every other ending leaves the
/// citizen at home. A rider that gives up leaves the queue it joined.
pub proof fn law_only_a_finished_walk_reaches_work(state: TripState, event: CommuteEvent)
    ensures
        spec_commute_step(state, event).1 == (CommuteAction::EndTrip { location: CitizenLocation::AtWork }) ==> (
        state.phase == CommutePhase::Walk && event == (CommuteEvent::Walked { outcome: WalkOutcome::Arrived })
            && state.transit is None && state.to_work),
        spec_commute_step(state, event).1 matches CommuteAction::EndTrip { location } ==> (location
            == CitizenLocation::AtWork || location == CitizenLocation::AtHome),
        (state.phase matches CommutePhase::Wait { ticks } && ticks >= WAIT_GIVE_UP_TICKS && state.transit
            matches Some(t)) ==> spec_commute_step(state, event).1 == (CommuteAction::LeaveQueue { board: state.transit.unwrap().board }),
{
}

} // verus!
