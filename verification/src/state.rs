//! What a spatial index holds, as mathematics: the bodies with their
//! hitboxes, the clock, and the set of pairs that are in contact.
//!
//! The index moves every hitbox linearly with the clock. A pair is in contact
//! from the instant at which a begin event reports it until the instant at
//! which an end event does. Events are due wherever the contacts differ from
//! what the geometry shows.

use vstd::prelude::*;
use crate::geom::{Hitbox, Vec2, TIME_MAX};
use crate::physics::Profile;
use crate::sweep::overlaps_after;

verus! {

/// What can go wrong in the collision subsystem.
#[derive(Clone, Copy, Debug, PartialEq, Eq, Structural)]
pub enum CollisionError {
    /// A body is registered under an identity that is already in use.
    DuplicateBodyId,
    /// An operation names an identity that is not in use.
    UnknownBodyId,
    /// Two shapes coincide exactly, so that no contact normal separates them.
    DegenerateNormal,
    /// One tick asked for more resolutions than the safety limit allows.
    CascadeOverflow,
}

/// Whether a contact begins or ends.
#[derive(Clone, Copy, Debug, PartialEq, Eq, Structural)]
pub enum EventKind {
    Begin,
    End,
}

/// A followed body: its handle and its hitbox at the instant of the clock.
#[derive(Clone, Copy, Debug, PartialEq, Eq, Structural)]
pub struct Entry {
    pub profile: Profile,
    pub hitbox: Hitbox,
}

impl Entry {
    /// The identity of the body.
    pub open spec fn id(self) -> u64 {
        self.profile.id_spec()
    }

    /// An entry is well formed when its hitbox is, and a wall does not move.
    pub open spec fn wf(self) -> bool {
        self.hitbox.wf() && (self.profile.wall ==> self.hitbox.vel == Vec2 { x: 0, y: 0 })
    }

    /// Executable test of `wf`.
    pub fn is_valid(&self) -> (r: bool)
        ensures
            r == self.wf(),
    {
        self.hitbox.is_valid() && (!self.profile.wall || (self.hitbox.vel.x == 0
            && self.hitbox.vel.y == 0))
    }
}

/// The unordered pair of two identities, smaller first.
pub open spec fn key(a: u64, b: u64) -> (u64, u64) {
    if a <= b {
        (a, b)
    } else {
        (b, a)
    }
}

/// The mathematical content of a spatial index.
pub struct IndexState {
    /// The instant of the clock.
    pub time: u64,
    /// The followed bodies, in the order in which they were added.
    pub bodies: Seq<Entry>,
    /// The pairs in contact, each as the `key` of its two identities.
    pub contacts: Set<(u64, u64)>,
}

impl IndexState {
    /// Whether a body with this identity is followed.
    pub open spec fn contains(self, id: u64) -> bool {
        exists|i: int| 0 <= i < self.bodies.len() && #[trigger] self.bodies[i].id() == id
    }

    /// The place of a followed body in `bodies`.
    pub open spec fn position(self, id: u64) -> int {
        choose|i: int| 0 <= i < self.bodies.len() && #[trigger] self.bodies[i].id() == id
    }

    /// The entry of a followed body.
    pub open spec fn entry(self, id: u64) -> Entry {
        self.bodies[self.position(id)]
    }

    /// Whether `p` is the handle of a body in the index.
    pub open spec fn follows(self, p: Profile) -> bool {
        exists|i: int| 0 <= i < self.bodies.len() && (#[trigger] self.bodies[i]).profile == p
    }

    /// What a query for the hitbox of `id` answers: the hitbox at the instant
    /// of the clock, or that the identity is not in use. The answer depends on
    /// the state alone, so that asking twice gives the same answer twice.
    pub open spec fn hitbox_result(self, id: u64) -> Result<Hitbox, CollisionError> {
        if self.contains(id) {
            Ok(self.entry(id).hitbox)
        } else {
            Err(CollisionError::UnknownBodyId)
        }
    }

    /// Whether the two bodies are in contact.
    pub open spec fn in_contact(self, a: u64, b: u64) -> bool {
        self.contacts.contains(key(a, b))
    }

    /// The state is well formed when the clock is in range, every entry is
    /// well formed, no identity occurs twice, and every contact joins two
    /// different followed bodies.
    pub open spec fn wf(self) -> bool {
        &&& self.time <= TIME_MAX
        &&& forall|i: int| 0 <= i < self.bodies.len() ==> (#[trigger] self.bodies[i]).wf()
        &&& forall|i: int, j: int|
            0 <= i < j < self.bodies.len() ==> (#[trigger] self.bodies[i]).id() != (
            #[trigger] self.bodies[j]).id()
        &&& forall|p: (u64, u64)| #[trigger]
            self.contacts.contains(p) ==> p.0 < p.1 && self.contains(p.0) && self.contains(p.1)
    }

    /// Whether every centre lies within `bound` of the origin on both axes.
    pub open spec fn within(self, bound: int) -> bool {
        forall|i: int|
            0 <= i < self.bodies.len() ==> (#[trigger] self.bodies[i]).hitbox.value.pos.within(
                bound,
            )
    }

    /// The contacts that a new hitbox has on arrival: one with each followed
    /// body that it overlaps.
    pub open spec fn arrival_contacts(self, id: u64, hitbox: Hitbox) -> Set<(u64, u64)> {
        Set::new(
            |p: (u64, u64)|
                exists|k: int|
                    0 <= k < self.bodies.len() && p == key(id, (#[trigger] self.bodies[k]).id())
                        && hitbox.value.overlaps_spec(self.bodies[k].hitbox.value),
        )
    }

    /// The state after a body was added.
    pub open spec fn added(self, profile: Profile, hitbox: Hitbox) -> IndexState {
        IndexState {
            time: self.time,
            bodies: self.bodies.push(Entry { profile, hitbox }),
            contacts: self.contacts.union(self.arrival_contacts(profile.id_spec(), hitbox)),
        }
    }

    /// The state after a followed body was removed, with all its contacts.
    pub open spec fn removed(self, id: u64) -> IndexState {
        IndexState {
            time: self.time,
            bodies: self.bodies.remove(self.position(id)),
            contacts: self.contacts.filter(|p: (u64, u64)| p.0 != id && p.1 != id),
        }
    }

    /// The state after a followed body was given a velocity. A wall keeps its
    /// own.
    pub open spec fn with_vel(self, id: u64, vel: Vec2) -> IndexState {
        let e = self.entry(id);
        if e.profile.wall {
            self
        } else {
            IndexState {
                time: self.time,
                bodies: self.bodies.update(
                    self.position(id),
                    Entry { profile: e.profile, hitbox: Hitbox { value: e.hitbox.value, vel } },
                ),
                contacts: self.contacts,
            }
        }
    }

    /// The handles of the bodies among the first `n` that are in contact with
    /// `id`, in the order of `bodies`.
    pub open spec fn partners_upto(self, id: u64, n: int) -> Seq<Profile>
        decreases n,
    {
        if n <= 0 {
            Seq::empty()
        } else {
            let rest = self.partners_upto(id, n - 1);
            let e = self.bodies[n - 1];
            if self.in_contact(id, e.id()) {
                rest.push(e.profile)
            } else {
                rest
            }
        }
    }

    /// The handles of the bodies in contact with `id`, in the order of
    /// `bodies`.
    pub open spec fn partners(self, id: u64) -> Seq<Profile> {
        self.partners_upto(id, self.bodies.len() as int)
    }

    /// Whether, `s` time units from now, the overlap of the bodies at places
    /// `i` and `j` differs from their contact: an event of the pair is due.
    pub open spec fn pair_changes(self, i: int, j: int, s: int) -> bool {
        overlaps_after(self.bodies[i].hitbox, self.bodies[j].hitbox, s) != self.in_contact(
            self.bodies[i].id(),
            self.bodies[j].id(),
        )
    }

    /// Whether an event of any pair is due `s` time units from now.
    pub open spec fn changes_after(self, s: int) -> bool {
        exists|i: int, j: int|
            0 <= i < j < self.bodies.len() && #[trigger] self.pair_changes(i, j, s)
    }

    /// Whether no event is due earlier than `s` time units from now.
    pub open spec fn quiet_before(self, s: int) -> bool {
        forall|t: int| 0 <= t < s ==> !#[trigger] self.changes_after(t)
    }

    /// Whether the next event is due `s` time units from now.
    pub open spec fn is_next_change(self, s: int) -> bool {
        0 <= s && self.changes_after(s) && self.quiet_before(s)
    }

    /// The instant at which the next event is due, if any ever is.
    pub open spec fn next_time_spec(self) -> Option<u64> {
        if exists|s: int| self.is_next_change(s) {
            Some((self.time + (choose|s: int| self.is_next_change(s))) as u64)
        } else {
            None
        }
    }

    /// Whether no event is due now: the contacts are what the geometry shows.
    pub open spec fn settled(self) -> bool {
        !self.changes_after(0)
    }

    /// The event of the pair at places `i < j`: a begin where the two overlap,
    /// an end where they do not, with the handle of the smaller identity first.
    pub open spec fn event_of(self, i: int, j: int) -> (EventKind, Profile, Profile) {
        let a = self.bodies[i];
        let b = self.bodies[j];
        let kind = if overlaps_after(a.hitbox, b.hitbox, 0) {
            EventKind::Begin
        } else {
            EventKind::End
        };
        if a.id() <= b.id() {
            (kind, a.profile, b.profile)
        } else {
            (kind, b.profile, a.profile)
        }
    }

    /// The events due now of the pairs `(i, k)` with `i < k < j`, by rising
    /// `k`.
    pub open spec fn row_events(self, i: int, j: int) -> Seq<(EventKind, Profile, Profile)>
        decreases j - i,
    {
        if j <= i + 1 {
            Seq::empty()
        } else {
            let rest = self.row_events(i, j - 1);
            if self.pair_changes(i, j - 1, 0) {
                rest.push(self.event_of(i, j - 1))
            } else {
                rest
            }
        }
    }

    /// The events due now of the pairs whose first place is below `i`, row
    /// by row.
    pub open spec fn events_upto(self, i: int) -> Seq<(EventKind, Profile, Profile)>
        decreases i,
    {
        if i <= 0 {
            Seq::empty()
        } else {
            self.events_upto(i - 1) + self.row_events(i - 1, self.bodies.len() as int)
        }
    }

    /// All events due now, ordered by the places of their bodies.
    pub open spec fn pending_events(self) -> Seq<(EventKind, Profile, Profile)> {
        self.events_upto(self.bodies.len() as int)
    }

    /// The state once every event due now was handed out: the contacts are
    /// the pairs that overlap.
    pub open spec fn caught_up(self) -> IndexState {
        IndexState {
            time: self.time,
            bodies: self.bodies,
            contacts: Set::new(
                |p: (u64, u64)|
                    exists|i: int, j: int|
                        0 <= i < j < self.bodies.len() && p == #[trigger] key(
                            self.bodies[i].id(),
                            self.bodies[j].id(),
                        ) && overlaps_after(self.bodies[i].hitbox, self.bodies[j].hitbox, 0),
            ),
        }
    }

    /// Whether every body stays within `POS_LIMIT` while moving for `s` time
    /// units.
    pub open spec fn fits_after(self, s: int) -> bool {
        forall|k: int|
            0 <= k < self.bodies.len() ==> (#[trigger] self.bodies[k]).hitbox.stays_in_range(s)
    }

    /// Whether the clock can be set to `time`: the instant is not later than
    /// the clock, so that nothing changes, or it is in range, no event is due
    /// before it, and every body stays in range on the way.
    pub open spec fn can_reach(self, time: u64) -> bool {
        time <= self.time || (time <= TIME_MAX && self.quiet_before(time - self.time)
            && self.fits_after(time - self.time))
    }

    /// The state with the clock at `time`: every body has moved at its
    /// velocity since the instant of the clock. A `time` that is not later
    /// than the clock changes nothing.
    pub open spec fn at_time(self, time: u64) -> IndexState {
        if time <= self.time {
            self
        } else {
            IndexState {
                time,
                bodies: self.bodies.map_values(
                    |e: Entry|
                        Entry { profile: e.profile, hitbox: e.hitbox.advanced(time - self.time) },
                ),
                contacts: self.contacts,
            }
        }
    }
}

} // verus!
