//! What the systems share besides the entities.

use vstd::prelude::*;
use crate::geom::Vec2;

verus! {

/// The box that the player drags over the entities to select them, from the
/// corner where the drag started to the corner where it stopped.
#[derive(Clone, Copy, Debug, PartialEq, Eq, Structural)]
pub struct SelectionBox {
    pub start: Vec2,
    pub stop: Vec2,
}

/// The smaller of two numbers.
pub open spec fn least(a: int, b: int) -> int {
    if a <= b {
        a
    } else {
        b
    }
}

/// The larger of two numbers.
pub open spec fn most(a: int, b: int) -> int {
    if a <= b {
        b
    } else {
        a
    }
}

impl SelectionBox {
    /// A box with both corners at the origin.
    pub fn new() -> (r: SelectionBox)
        ensures
            r == (SelectionBox { start: Vec2 { x: 0, y: 0 }, stop: Vec2 { x: 0, y: 0 } }),
    {
        SelectionBox { start: Vec2::zero(), stop: Vec2::zero() }
    }

    /// Whether a position lies strictly inside the box, whichever way the box
    /// was dragged.
    pub open spec fn contains_spec(self, pos: Vec2) -> bool {
        &&& least(self.start.x as int, self.stop.x as int) < pos.x < most(
            self.start.x as int,
            self.stop.x as int,
        )
        &&& least(self.start.y as int, self.stop.y as int) < pos.y < most(
            self.start.y as int,
            self.stop.y as int,
        )
    }

    /// Whether a position lies strictly inside the box, whichever way the box
    /// was dragged.
    pub fn contains(&self, pos: Vec2) -> (r: bool)
        ensures
            r == self.contains_spec(pos),
    {
        // Order x and y positions.
        let x1: i64 = if self.start.x <= self.stop.x {
            self.start.x
        } else {
            self.stop.x
        };
        let x2: i64 = if self.start.x <= self.stop.x {
            self.stop.x
        } else {
            self.start.x
        };
        let y1: i64 = if self.start.y <= self.stop.y {
            self.start.y
        } else {
            self.stop.y
        };
        let y2: i64 = if self.start.y <= self.stop.y {
            self.stop.y
        } else {
            self.start.y
        };
        pos.x > x1 && pos.x < x2 && pos.y > y1 && pos.y < y2
    }
}

} // verus!
