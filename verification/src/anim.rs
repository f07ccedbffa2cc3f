//! Flight timing of the overlay animation.

use vstd::prelude::*;

verus! {

/// Width of the rig (banner, tow line and plane) in unscaled pixels.
pub const RIG_W: i32 = 900;

/// Height of the rig in unscaled pixels.
pub const RIG_H: i32 = 200;

/// Duration of one crossing of the screen, in milliseconds.
pub const FLIGHT_MS: u32 = 12_000;

/// A flight is over once `t_ms` milliseconds have reached the flight duration.
pub fn finished(t_ms: u32) -> (done: bool)
    ensures
        done <==> t_ms >= FLIGHT_MS,
{
    t_ms >= FLIGHT_MS
}

} // verus!
