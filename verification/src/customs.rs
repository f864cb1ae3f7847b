//! Border customs' discrete side: when a vehicle bought abroad has driven
//! in. Prices and the yard's sales are fractional and live with the caller.
use vstd::prelude::*;

verus! {

/// Half the frame clock: an arrival frame at most this far behind the
/// current frame has passed.
pub const HALF_CLOCK: u32 = 0x7FFF_FFFF;

/// `frame - arrives` on the wrapping frame clock.
pub open spec fn frames_since(frame: u32, arrives: u32) -> int {
    (frame as int - arrives as int) % 0x1_0000_0000int
}

/// Whether a vehicle due at the border gate on `arrives` has arrived by
/// `frame`. Wrap-safe: the arrival counts as passed for the half of the
/// clock behind `frame`, and as still ahead for the half in front of it.
pub fn border_released(frame: u32, arrives: u32) -> (r: bool)
    ensures
        r == (frames_since(frame, arrives) < HALF_CLOCK),
{
    frame.wrapping_sub(arrives) < HALF_CLOCK
}

/// A vehicle is released on its arrival frame and on each of the following
/// frames for half the clock, even across the clock's wrap, and held on
/// each of the frames before it.
pub proof fn law_release_from_arrival(arrives: u32, d: int)
    requires
        0 <= d < HALF_CLOCK,
    ensures
        frames_since(((arrives as int + d) % 0x1_0000_0000int) as u32, arrives) < HALF_CLOCK,
        frames_since(((arrives as int - d - 1) % 0x1_0000_0000int) as u32, arrives) >= HALF_CLOCK,
{
    let later = ((arrives as int + d) % 0x1_0000_0000int) as u32;
    let earlier = ((arrives as int - d - 1) % 0x1_0000_0000int) as u32;
    if arrives as int + d < 0x1_0000_0000int {
        assert(later as int == arrives as int + d);
    } else {
        assert(later as int == arrives as int + d - 0x1_0000_0000int);
    }
    if arrives as int - d - 1 >= 0 {
        assert(earlier as int == arrives as int - d - 1);
    } else {
        assert(earlier as int == arrives as int - d - 1 + 0x1_0000_0000int);
    }
}

} // verus!
