//! The needs pass's discrete side: its cadence, the daily attendance roll,
//! and which home conditions cap a resident's rest. The food and rest
//! levels themselves are fractional and are stepped by the caller.
use vstd::prelude::*;
use crate::clock::FRAMES_PER_GAME_DAY;
use crate::commute::MORNING_FRAME;
use crate::households::Dwelling;

verus! {

/// Needs are low-frequency: one update every this many frames.
pub const NEEDS_INTERVAL_FRAMES: u32 = 25;

/// Whether the needs pass runs on `frame`.
pub fn needs_due(frame: u32) -> (r: bool)
    ensures
        r == (frame % NEEDS_INTERVAL_FRAMES == 0),
{
    frame % NEEDS_INTERVAL_FRAMES == 0
}

/// Whether attendance is rolled on `frame`: once a day, at the morning edge.
pub fn attendance_roll_due(frame: u32) -> (r: bool)
    ensures
        r == (frame % FRAMES_PER_GAME_DAY == MORNING_FRAME),
{
    frame % FRAMES_PER_GAME_DAY == MORNING_FRAME
}

/// The game day `frame` falls in.
pub fn day_index(frame: u32) -> (r: u32)
    ensures
        r == frame / FRAMES_PER_GAME_DAY,
{
    frame / FRAMES_PER_GAME_DAY
}

/// The attendance draw of citizen `id` on `day`: a splitmix64 finalizer
/// over the id and the day, cut to its top 53 bits. It is a pure function
/// of its inputs, so a replay rolls the same attendance. The citizen
/// attends when `draw / 2^53` is below the day's probability.
pub open spec fn spec_attendance_draw(id: u64, day: u32) -> u64 {
    let x0 = id ^ (day as u64).wrapping_mul(0x9E37_79B9_7F4A_7C15u64);
    let x1 = (x0 ^ (x0 >> 30u64)).wrapping_mul(0xBF58_476D_1CE4_E5B9u64);
    let x2 = (x1 ^ (x1 >> 27u64)).wrapping_mul(0x94D0_49BB_1331_11EBu64);
    let x3 = x2 ^ (x2 >> 31u64);
    x3 >> 11u64
}

pub fn attendance_draw(id: u64, day: u32) -> (r: u64)
    ensures
        r == spec_attendance_draw(id, day),
        r < 0x20_0000_0000_0000u64,
{
    let mut x: u64 = id ^ (day as u64).wrapping_mul(0x9E37_79B9_7F4A_7C15u64);
    x = (x ^ (x >> 30u64)).wrapping_mul(0xBF58_476D_1CE4_E5B9u64);
    x = (x ^ (x >> 27u64)).wrapping_mul(0x94D0_49BB_1331_11EBu64);
    x = x ^ (x >> 31u64);
    let r = x >> 11u64;
    assert(x >> 11u64 < 0x20_0000_0000_0000u64) by (bit_vector);
    r
}

/// The home conditions that cap a resident's rest.
#[derive(Clone, Copy, PartialEq, Eq, Debug, Structural)]
pub struct HomeStrain {
    /// More households than flats.
    pub overcrowded: bool,
    /// On the grid but not served.
    pub dark: bool,
    /// On the heat net but not served.
    pub cold: bool,
}

/// What straining conditions the home has. `home` is the resident's
/// dwelling if it has one; `powered` and `heated` are the dwelling's gates
/// where it carries them — a dwelling without a gate is not strained by it.
pub fn home_strain(home: Option<Dwelling>, powered: Option<bool>, heated: Option<bool>) -> (r: HomeStrain)
    ensures
        home is None ==> r == (HomeStrain { overcrowded: false, dark: false, cold: false }),
        home matches Some(d) ==> r == (HomeStrain {
            overcrowded: d.occupied > d.flats,
            dark: powered == Some(false),
            cold: heated == Some(false),
        }),
{
    match home {
        None => HomeStrain { overcrowded: false, dark: false, cold: false },
        Some(d) => HomeStrain {
            overcrowded: crate::households::overcrowded(d),
            dark: match powered {
                Some(p) => !p,
                None => false,
            },
            cold: match heated {
                Some(h) => !h,
                None => false,
            },
        },
    }
}

} // verus!
