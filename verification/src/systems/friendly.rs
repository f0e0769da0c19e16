//! What the system of the friendly characters decides on plain values: whether
//! a character on its way to a goal has come near enough to stop.

use vstd::prelude::*;
use crate::geom::{Vec2, POS_LIMIT};

verus! {

/// A character stops when it is nearer to its goal than this: 4 world units.
pub const DISTANCE_BEFORE_STOP: i64 = 4_000_000;

/// The speed at which a character walks, in units per time unit: 60 world
/// units per second.
pub const WALK_SPEED: i64 = 1000;

/// Steers the friendly characters toward their goals.
pub struct FriendlySystem;

impl FriendlySystem {
    /// Whether the straight way from `pos` to `target` is shorter than
    /// `DISTANCE_BEFORE_STOP`.
    pub open spec fn has_arrived_spec(pos: Vec2, target: Vec2) -> bool {
        (target.x - pos.x) * (target.x - pos.x) + (target.y - pos.y) * (target.y - pos.y)
            < DISTANCE_BEFORE_STOP * DISTANCE_BEFORE_STOP
    }

    /// Whether a character at `pos` is near enough to its goal at `target`
    /// to stop. The lengths are compared by their squares, which is exact.
    pub fn has_arrived(pos: Vec2, target: Vec2) -> (r: bool)
        requires
            pos.within(POS_LIMIT as int),
            target.within(POS_LIMIT as int),
        ensures
            r == Self::has_arrived_spec(pos, target),
    {
        let dx: i128 = target.x as i128 - pos.x as i128;
        let dy: i128 = target.y as i128 - pos.y as i128;
        let stop: i128 = DISTANCE_BEFORE_STOP as i128;
        assert(0 <= dx * dx <= 4_000_000_000_000_000_000_000_000_000_000_000_000 && 0 <= dy * dy
            <= 4_000_000_000_000_000_000_000_000_000_000_000_000) by (nonlinear_arith)
            requires
                -2_000_000_000_000_000_000 <= dx <= 2_000_000_000_000_000_000,
                -2_000_000_000_000_000_000 <= dy <= 2_000_000_000_000_000_000,
        ;
        dx * dx + dy * dy < stop * stop
    }
}

} // verus!
