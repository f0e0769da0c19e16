//! The plain data that the systems read and write for each entity.

use vstd::prelude::*;
use crate::geom::Vec2;

verus! {

/// A position in the game world.
#[derive(Clone, Copy, Debug, PartialEq, Eq, Structural)]
pub struct Position(pub Vec2);

/// Motion in the game world.
#[derive(Clone, Copy, Debug, PartialEq, Eq, Structural)]
pub struct Motion {
    pub velocity: Vec2,
}

/// The identity under which the spatial index follows an entity.
#[derive(Clone, Copy, Debug, PartialEq, Eq, Structural)]
pub struct BoxCollider(pub u64);

/// One entity as the collision system sees it: where it is, how it wants to
/// move if it moves at all, and its collider.
#[derive(Clone, Copy, Debug, PartialEq, Eq, Structural)]
pub struct MovingBody {
    pub position: Position,
    pub motion: Option<Motion>,
    pub collider: BoxCollider,
}

impl MovingBody {
    /// The identity of the collider.
    pub open spec fn id(self) -> u64 {
        self.collider.0
    }

    /// Whether the velocity, if there is one, is valid.
    pub open spec fn wf(self) -> bool {
        self.motion matches Some(m) ==> m.velocity.is_velocity()
    }

    /// Executable test of `wf`.
    pub fn is_valid(&self) -> (r: bool)
        ensures
            r == self.wf(),
    {
        match self.motion {
            Some(m) => m.velocity.is_valid_velocity(),
            None => true,
        }
    }
}

} // verus!
