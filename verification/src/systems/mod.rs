//! The systems that move the entities.

pub mod collision;
pub mod friendly;
pub mod tick;

use vstd::prelude::*;
use crate::components::{Motion, Position};
use crate::geom::{Vec2, POS_LIMIT};

verus! {

/// Moves every entity by its velocity, without regard to collisions.
pub struct MovementSystem;

impl MovementSystem {
    /// The position one step later.
    pub open spec fn moved(pos: Position, motion: Motion) -> Position {
        Position(
            Vec2 {
                x: (pos.0.x + motion.velocity.x) as i64,
                y: (pos.0.y + motion.velocity.y) as i64,
            },
        )
    }

    /// Adds to each position the velocity that stands beside it.
    pub fn run(&mut self, entities: &mut Vec<(Position, Motion)>)
        requires
            forall|k: int|
                0 <= k < old(entities)@.len() ==> (#[trigger] old(entities)@[k]).0.0.within(
                    POS_LIMIT as int,
                ) && old(entities)@[k].1.velocity.is_velocity(),
        ensures
            final(entities)@.len() == old(entities)@.len(),
            forall|k: int|
                0 <= k < old(entities)@.len() ==> #[trigger] final(entities)@[k] == (
                    Self::moved(old(entities)@[k].0, old(entities)@[k].1),
                    old(entities)@[k].1,
                ),
    {
        let n = entities.len();
        let mut i: usize = 0;
        while i < n
            invariant
                n == entities@.len(),
                n == old(entities)@.len(),
                i <= n,
                forall|k: int|
                    0 <= k < i ==> #[trigger] entities@[k] == (
                        Self::moved(old(entities)@[k].0, old(entities)@[k].1),
                        old(entities)@[k].1,
                    ),
                forall|k: int| i <= k < n ==> #[trigger] entities@[k] == old(entities)@[k],
                forall|k: int|
                    0 <= k < n ==> (#[trigger] old(entities)@[k]).0.0.within(POS_LIMIT as int)
                        && old(entities)@[k].1.velocity.is_velocity(),
            decreases n - i,
        {
            let (pos, motion) = entities[i];
            assert(old(entities)@[i as int].0.0.within(POS_LIMIT as int));
            let next = Position(
                Vec2 { x: pos.0.x + motion.velocity.x, y: pos.0.y + motion.velocity.y },
            );
            entities.set(i, (next, motion));
            i += 1;
        }
    }
}

} // verus!
