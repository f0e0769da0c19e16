//! The spatial index: it follows the bodies, keeps the clock of the
//! simulation, predicts the instant of the next event from the velocities,
//! and hands out the events that are due.

use vstd::prelude::*;
use crate::geom::{Hitbox, Vec2, TIME_MAX};
use crate::physics::Profile;
use crate::state::{key, CollisionError, Entry, EventKind, IndexState};
use crate::state_laws::{
    lemma_added, lemma_at_time, lemma_caught_up, lemma_next_change_unique, lemma_removed,
    lemma_with_vel,
};
use crate::sweep::{
    is_first_change, lemma_overlaps_now, never_changes, next_change, overlaps_after, NUM_MAX,
};

verus! {

/// The spatial index.
pub struct SpatialIndex {
    entries: Vec<Entry>,
    contacts: Vec<(u64, u64)>,
    time: u64,
}

impl View for SpatialIndex {
    type V = IndexState;

    closed spec fn view(&self) -> IndexState {
        IndexState {
            time: self.time,
            bodies: self.entries@,
            contacts: Set::new(|p: (u64, u64)| self.contacts@.contains(p)),
        }
    }
}

/// Whether `p` is a contact of a new hitbox with one of the first `n` bodies.
spec fn arrives_among(s: IndexState, id: u64, hitbox: Hitbox, n: int, p: (u64, u64)) -> bool {
    exists|k: int|
        0 <= k < n && k < s.bodies.len() && p == key(id, (#[trigger] s.bodies[k]).id())
            && hitbox.value.overlaps_spec(s.bodies[k].hitbox.value)
}

/// The unordered pair of two identities, smaller first.
fn make_key(a: u64, b: u64) -> (r: (u64, u64))
    ensures
        r == key(a, b),
{
    if a <= b {
        (a, b)
    } else {
        (b, a)
    }
}

impl SpatialIndex {
    /// The index is well formed when its content is.
    pub open spec fn wf(&self) -> bool {
        self@.wf()
    }

    /// An empty index with its clock at zero.
    pub fn new() -> (r: SpatialIndex)
        ensures
            r.wf(),
            r@.time == 0,
            r@.bodies == Seq::<Entry>::empty(),
            r@.contacts == Set::<(u64, u64)>::empty(),
    {
        let r = SpatialIndex { entries: Vec::new(), contacts: Vec::new(), time: 0 };
        assert(r@.contacts =~= Set::<(u64, u64)>::empty());
        r
    }

    /// The instant of the clock.
    pub fn time(&self) -> (r: u64)
        ensures
            r == self@.time,
    {
        self.time
    }

    /// The number of followed bodies.
    pub fn len(&self) -> (r: usize)
        ensures
            r == self@.bodies.len(),
    {
        self.entries.len()
    }

    /// The entry at a place in the order of arrival.
    pub fn entry_at(&self, i: usize) -> (r: Entry)
        requires
            i < self@.bodies.len(),
        ensures
            r == self@.bodies[i as int],
    {
        self.entries[i]
    }

    /// The place of the body with this identity, if it is followed.
    pub fn find(&self, id: u64) -> (r: Option<usize>)
        requires
            self.wf(),
        ensures
            match r {
                Some(i) => self@.contains(id) && i == self@.position(id) && i
                    < self@.bodies.len() && self@.bodies[i as int].id() == id,
                None => !self@.contains(id),
            },
    {
        let mut i: usize = 0;
        while i < self.entries.len()
            invariant
                self.wf(),
                i <= self.entries.len(),
                forall|k: int| 0 <= k < i ==> (#[trigger] self.entries@[k]).id() != id,
            decreases self.entries.len() - i,
        {
            if self.entries[i].profile.id() == id {
                proof {
                    assert(self@.bodies[i as int].id() == id);
                    let j = self@.position(id);
                    assert(self@.bodies[j].id() == id);
                    assert(j == i) by {
                        if j < i {
                            assert(self@.bodies[j].id() != self@.bodies[i as int].id());
                        } else if i < j {
                            assert(self@.bodies[i as int].id() != self@.bodies[j].id());
                        }
                    }
                }
                return Some(i);
            }
            i += 1;
        }
        None
    }

    /// Whether a body with this identity is followed.
    pub fn contains(&self, id: u64) -> (r: bool)
        requires
            self.wf(),
        ensures
            r == self@.contains(id),
    {
        self.find(id).is_some()
    }

    /// The hitbox of a body at the instant of the clock. The answer depends on
    /// the content of the index alone: asked twice without a change in
    /// between, the index answers the same twice.
    pub fn get_hitbox(&self, id: u64) -> (r: Result<Hitbox, CollisionError>)
        requires
            self.wf(),
        ensures
            r == self@.hitbox_result(id),
            r matches Ok(hb) ==> hb.wf(),
    {
        match self.find(id) {
            Some(i) => {
                assert(self@.bodies[i as int].wf());
                Ok(self.entries[i].hitbox)
            },
            None => Err(CollisionError::UnknownBodyId),
        }
    }

    /// Whether the two bodies are in contact. An identity that is not followed
    /// is in contact with nothing.
    pub fn is_overlapping(&self, id_1: u64, id_2: u64) -> (r: bool)
        ensures
            r == self@.in_contact(id_1, id_2),
    {
        let k = make_key(id_1, id_2);
        let mut i: usize = 0;
        while i < self.contacts.len()
            invariant
                k == key(id_1, id_2),
                i <= self.contacts.len(),
                forall|j: int| 0 <= j < i ==> self.contacts@[j] != k,
            decreases self.contacts.len() - i,
        {
            let c = self.contacts[i];
            if c.0 == k.0 && c.1 == k.1 {
                assert(self.contacts@[i as int] == k);
                return true;
            }
            i += 1;
        }
        false
    }

    /// The handles of the bodies in contact with `id`, in the order in which
    /// they were added. An identity that is not followed has none.
    pub fn get_overlaps(&self, id: u64) -> (r: Vec<Profile>)
        ensures
            r@ == self@.partners(id),
            forall|k: int| 0 <= k < r@.len() ==> self@.follows(#[trigger] r@[k]),
    {
        let mut out: Vec<Profile> = Vec::new();
        let mut i: usize = 0;
        while i < self.entries.len()
            invariant
                i <= self.entries.len(),
                out@ == self@.partners_upto(id, i as int),
                forall|k: int| 0 <= k < out@.len() ==> self@.follows(#[trigger] out@[k]),
            decreases self.entries.len() - i,
        {
            let e = self.entries[i];
            if self.is_overlapping(id, e.profile.id()) {
                out.push(e.profile);
                assert(self@.bodies[i as int].profile == e.profile);
            }
            i += 1;
        }
        out
    }

    /// Starts to follow a body. It is in contact at once, without any event,
    /// with every body that its hitbox overlaps; their handles are returned in
    /// the order in which they were added. An identity that is already in use
    /// is refused and nothing changes.
    pub fn add_hitbox(&mut self, profile: Profile, hitbox: Hitbox) -> (r: Result<
        Vec<Profile>,
        CollisionError,
    >)
        requires
            old(self).wf(),
            (Entry { profile, hitbox }).wf(),
        ensures
            final(self).wf(),
            match r {
                Ok(v) => {
                    &&& !old(self)@.contains(profile.id_spec())
                    &&& final(self)@ == old(self)@.added(profile, hitbox)
                    &&& v@ == final(self)@.partners(profile.id_spec())
                    &&& forall|k: int| 0 <= k < v@.len() ==> final(self)@.follows(#[trigger] v@[k])
                },
                Err(e) => {
                    &&& e == CollisionError::DuplicateBodyId
                    &&& old(self)@.contains(profile.id_spec())
                    &&& final(self)@ == old(self)@
                },
            },
    {
        let id = profile.id();
        if self.find(id).is_some() {
            return Err(CollisionError::DuplicateBodyId);
        }
        let ghost before = self@;
        let ghost after = before.added(profile, hitbox);
        proof {
            lemma_added(before, profile, hitbox);
        }
        let mut out: Vec<Profile> = Vec::new();
        let mut i: usize = 0;
        while i < self.entries.len()
            invariant
                before.wf(),
                !before.contains(id),
                id == profile.id_spec(),
                hitbox.wf(),
                after == before.added(profile, hitbox),
                forall|k: int|
                    0 <= k < before.bodies.len() ==> (after.in_contact(
                        id,
                        (#[trigger] before.bodies[k]).id(),
                    ) <==> hitbox.value.overlaps_spec(before.bodies[k].hitbox.value)),
                self.entries@ == before.bodies,
                self.time == before.time,
                i <= self.entries.len(),
                out@ == after.partners_upto(id, i as int),
                forall|k: int| 0 <= k < out@.len() ==> before.follows(#[trigger] out@[k]),
                forall|p: (u64, u64)| #[trigger]
                    self.contacts@.contains(p) <==> (before.contacts.contains(p) || arrives_among(
                        before,
                        id,
                        hitbox,
                        i as int,
                        p,
                    )),
            decreases self.entries.len() - i,
        {
            let e = self.entries[i];
            let ghost prior = self.contacts@;
            assert(after.bodies[i as int] == before.bodies[i as int]);
            let hit = hitbox.value.overlaps(&e.hitbox.value);
            let k = make_key(id, e.profile.id());
            if hit {
                self.contacts.push(k);
                out.push(e.profile);
                assert(before.bodies[i as int].profile == e.profile);
            }
            proof {
                assert(self.contacts@ == if hit {
                    prior.push(k)
                } else {
                    prior
                });
                assert forall|p: (u64, u64)| #[trigger]
                    self.contacts@.contains(p) <==> (before.contacts.contains(p) || arrives_among(
                        before,
                        id,
                        hitbox,
                        i + 1,
                        p,
                    )) by {
                    if self.contacts@.contains(p) {
                        let m = choose|m: int|
                            0 <= m < self.contacts@.len() && self.contacts@[m] == p;
                        if m < prior.len() {
                            assert(prior[m] == p);
                            assert(prior.contains(p));
                            if !before.contacts.contains(p) {
                                assert(arrives_among(before, id, hitbox, i as int, p));
                                let w = choose|w: int|
                                    0 <= w < i && w < before.bodies.len() && p == key(
                                        id,
                                        (#[trigger] before.bodies[w]).id(),
                                    ) && hitbox.value.overlaps_spec(before.bodies[w].hitbox.value);
                                assert(0 <= w < i + 1 && p == key(id, before.bodies[w].id()));
                            }
                        } else {
                            assert(p == key(id, before.bodies[i as int].id()));
                        }
                    }
                    if before.contacts.contains(p) {
                        assert(prior.contains(p));
                        let m = choose|m: int| 0 <= m < prior.len() && prior[m] == p;
                        assert(self.contacts@[m] == p);
                    } else if arrives_among(before, id, hitbox, i + 1, p) {
                        let w = choose|w: int|
                            0 <= w < i + 1 && w < before.bodies.len() && p == key(
                                id,
                                (#[trigger] before.bodies[w]).id(),
                            ) && hitbox.value.overlaps_spec(before.bodies[w].hitbox.value);
                        if w < i {
                            assert(arrives_among(before, id, hitbox, i as int, p));
                            assert(prior.contains(p));
                            let m = choose|m: int| 0 <= m < prior.len() && prior[m] == p;
                            assert(self.contacts@[m] == p);
                        } else {
                            assert(hit);
                            assert(self.contacts@[prior.len() as int] == p);
                        }
                    }
                }
            }
            i += 1;
        }
        self.entries.push(Entry { profile, hitbox });
        proof {
            assert forall|p: (u64, u64)|
                self@.contacts.contains(p) <==> after.contacts.contains(p) by {
                if arrives_among(before, id, hitbox, before.bodies.len() as int, p) {
                    let w = choose|w: int|
                        0 <= w < before.bodies.len() && w < before.bodies.len() && p == key(
                            id,
                            (#[trigger] before.bodies[w]).id(),
                        ) && hitbox.value.overlaps_spec(before.bodies[w].hitbox.value);
                    assert(before.arrival_contacts(id, hitbox).contains(p));
                }
                if before.arrival_contacts(id, hitbox).contains(p) {
                    let w = choose|w: int|
                        0 <= w < before.bodies.len() && p == key(
                            id,
                            (#[trigger] before.bodies[w]).id(),
                        ) && hitbox.value.overlaps_spec(before.bodies[w].hitbox.value);
                    assert(arrives_among(before, id, hitbox, before.bodies.len() as int, p));
                }
            }
            assert(self@.contacts =~= after.contacts);
            assert(self@.bodies == after.bodies);
            assert(after.bodies[before.bodies.len() as int].id() == id);
            assert(after.partners(id) == after.partners_upto(id, before.bodies.len() as int));
            assert forall|k: int| 0 <= k < out@.len() implies after.follows(#[trigger] out@[k]) by {
                let j = choose|j: int|
                    0 <= j < before.bodies.len() && (#[trigger] before.bodies[j]).profile
                        == out@[k];
                assert(after.bodies[j].profile == out@[k]);
            }
        }
        Ok(out)
    }

    /// Stops following a body and ends all its contacts without any event.
    /// Returns the handles of the bodies that it was in contact with, in the
    /// order in which they were added. An identity that is not in use is
    /// refused and nothing changes.
    pub fn remove_hitbox(&mut self, id: u64) -> (r: Result<Vec<Profile>, CollisionError>)
        requires
            old(self).wf(),
        ensures
            final(self).wf(),
            match r {
                Ok(v) => {
                    &&& old(self)@.contains(id)
                    &&& final(self)@ == old(self)@.removed(id)
                    &&& v@ == old(self)@.partners(id)
                },
                Err(e) => {
                    &&& e == CollisionError::UnknownBodyId
                    &&& !old(self)@.contains(id)
                    &&& final(self)@ == old(self)@
                },
            },
    {
        let i = match self.find(id) {
            Some(i) => i,
            None => {
                return Err(CollisionError::UnknownBodyId);
            },
        };
        let ghost before = self@;
        let out = self.get_overlaps(id);
        let mut kept: Vec<(u64, u64)> = Vec::new();
        let mut j: usize = 0;
        while j < self.contacts.len()
            invariant
                j <= self.contacts.len(),
                forall|p: (u64, u64)|
                    kept@.contains(p) <==> (p.0 != id && p.1 != id && exists|m: int|
                        0 <= m < j && #[trigger] self.contacts@[m] == p),
            decreases self.contacts.len() - j,
        {
            let c = self.contacts[j];
            let ghost prior = kept@;
            if c.0 != id && c.1 != id {
                kept.push(c);
            }
            proof {
                assert forall|p: (u64, u64)|
                    kept@.contains(p) <==> (p.0 != id && p.1 != id && exists|m: int|
                        0 <= m < j + 1 && #[trigger] self.contacts@[m] == p) by {
                    if kept@.contains(p) {
                        let m = choose|m: int| 0 <= m < kept@.len() && kept@[m] == p;
                        if m < prior.len() {
                            assert(prior[m] == p);
                            assert(prior.contains(p));
                        } else {
                            assert(self.contacts@[j as int] == p);
                        }
                    }
                    if p.0 != id && p.1 != id && exists|m: int|
                        0 <= m < j + 1 && #[trigger] self.contacts@[m] == p {
                        let m = choose|m: int| 0 <= m < j + 1 && #[trigger] self.contacts@[m] == p;
                        if m < j {
                            assert(prior.contains(p));
                            let n = choose|n: int| 0 <= n < prior.len() && prior[n] == p;
                            assert(kept@[n] == p);
                        } else {
                            assert(kept@[prior.len() as int] == p);
                        }
                    }
                }
            }
            j += 1;
        }
        self.contacts = kept;
        self.entries.remove(i);
        proof {
            lemma_removed(before, id);
            assert(self@.contacts =~= before.removed(id).contacts) by {
                assert forall|p: (u64, u64)|
                    self@.contacts.contains(p) <==> before.removed(id).contacts.contains(p) by {
                    if before.contacts.contains(p) {
                        let m = choose|m: int|
                            0 <= m < old(self).contacts@.len() && old(self).contacts@[m] == p;
                        assert(old(self).contacts@[m] == p);
                    }
                }
            }
        }
        Ok(out)
    }

    /// Gives a body a new velocity from the instant of the clock on. A wall
    /// keeps its own. An identity that is not in use is refused and nothing
    /// changes.
    pub fn set_hitbox_vel(&mut self, id: u64, vel: Vec2) -> (r: Result<(), CollisionError>)
        requires
            old(self).wf(),
            vel.is_velocity(),
        ensures
            final(self).wf(),
            match r {
                Ok(_) => {
                    &&& old(self)@.contains(id)
                    &&& final(self)@ == old(self)@.with_vel(id, vel)
                },
                Err(e) => {
                    &&& e == CollisionError::UnknownBodyId
                    &&& !old(self)@.contains(id)
                    &&& final(self)@ == old(self)@
                },
            },
    {
        let i = match self.find(id) {
            Some(i) => i,
            None => {
                return Err(CollisionError::UnknownBodyId);
            },
        };
        let e = self.entries[i];
        if !e.profile.wall {
            let ghost before = self@;
            self.entries.set(
                i,
                Entry { profile: e.profile, hitbox: Hitbox { value: e.hitbox.value, vel } },
            );
            proof {
                lemma_with_vel(before, id, vel);
                assert(self@.contacts =~= before.contacts);
            }
        }
        Ok(())
    }

    /// The instant at which the next event is due: the earliest instant, not
    /// before the clock, at which two bodies begin or stop to overlap against
    /// what their contact says. It is found from the velocities, pair by
    /// pair. `None` where no event is ever due.
    pub fn next_time(&self) -> (r: Option<u64>)
        requires
            self.wf(),
        ensures
            r == self@.next_time_spec(),
            match r {
                Some(t) => t >= self@.time && self@.is_next_change(t - self@.time),
                None => forall|s: int| 0 <= s ==> !#[trigger] self@.changes_after(s),
            },
    {
        let n = self.entries.len();
        let mut best: Option<u64> = None;
        let mut i: usize = 0;
        while i < n
            invariant
                self.wf(),
                n == self.entries.len(),
                i <= n,
                self.best_so_far(i as int, 0, best),
            decreases n - i,
        {
            let a = self.entries[i];
            let mut j: usize = i + 1;
            proof {
                self.lemma_best_next_row(i as int, best);
            }
            while j < n
                invariant
                    self.wf(),
                    n == self.entries.len(),
                    i < n,
                    i < j <= n,
                    a == self.entries@[i as int],
                    self.best_so_far(i as int, j as int, best),
                decreases n - j,
            {
                let b = self.entries[j];
                let c = self.is_overlapping(a.profile.id(), b.profile.id());
                assert(self@.bodies[i as int].wf() && self@.bodies[j as int].wf());
                let found = next_change(&a.hitbox, &b.hitbox, c);
                let ghost prior = best;
                match found {
                    Some(s) => {
                        let better = match best {
                            Some(t) => s < t,
                            None => true,
                        };
                        if better {
                            best = Some(s);
                        }
                    },
                    None => {},
                }
                proof {
                    self.lemma_best_step(i as int, j as int, prior, found, best);
                }
                j += 1;
            }
            i += 1;
        }
        proof {
            self.lemma_best_done(best);
        }
        match best {
            Some(s) => Some(self.time + s),
            None => None,
        }
    }

    /// Hands out every event that is due at the instant of the clock, ordered
    /// by the places of the bodies, each with the handle of the smaller
    /// identity first, and brings the contacts up to date: after the call the
    /// pairs in contact are exactly the pairs that overlap, so that no event of
    /// this instant is left or lost.
    pub fn next(&mut self) -> (r: Vec<(EventKind, Profile, Profile)>)
        requires
            old(self).wf(),
        ensures
            final(self).wf(),
            final(self)@ == old(self)@.caught_up(),
            final(self)@.settled(),
            r@ == old(self)@.pending_events(),
            forall|k: int|
                0 <= k < r@.len() ==> old(self)@.follows((#[trigger] r@[k]).1) && old(
                    self,
                )@.follows(r@[k].2),
    {
        let n = self.entries.len();
        let mut events: Vec<(EventKind, Profile, Profile)> = Vec::new();
        let mut fresh: Vec<(u64, u64)> = Vec::new();
        let mut i: usize = 0;
        while i < n
            invariant
                self.wf(),
                n == self.entries.len(),
                i <= n,
                events@ == self@.events_upto(i as int),
                forall|k: int|
                    0 <= k < events@.len() ==> self@.follows((#[trigger] events@[k]).1)
                        && self@.follows(events@[k].2),
                forall|p: (u64, u64)| #[trigger]
                    fresh@.contains(p) <==> self.overlaps_among(i as int, 0, p),
            decreases n - i,
        {
            let a = self.entries[i];
            let mut j: usize = i + 1;
            proof {
                assert(events@ + self@.row_events(i as int, j as int) == events@);
                assert forall|p: (u64, u64)| #[trigger]
                    fresh@.contains(p) <==> self.overlaps_among(i as int, j as int, p) by {
                    self.lemma_among_next_row(i as int, p);
                }
            }
            while j < n
                invariant
                    self.wf(),
                    n == self.entries.len(),
                    i < n,
                    i < j <= n,
                    a == self.entries@[i as int],
                    events@ == self@.events_upto(i as int) + self@.row_events(i as int, j as int),
                    forall|k: int|
                        0 <= k < events@.len() ==> self@.follows((#[trigger] events@[k]).1)
                            && self@.follows(events@[k].2),
                    forall|p: (u64, u64)| #[trigger]
                        fresh@.contains(p) <==> self.overlaps_among(i as int, j as int, p),
                decreases n - j,
            {
                let b = self.entries[j];
                assert(self@.bodies[i as int].wf() && self@.bodies[j as int].wf());
                let now = a.hitbox.value.overlaps(&b.hitbox.value);
                let was = self.is_overlapping(a.profile.id(), b.profile.id());
                let k = make_key(a.profile.id(), b.profile.id());
                let ghost prior = fresh@;
                proof {
                    lemma_overlaps_now(a.hitbox, b.hitbox);
                    assert(self@.bodies[i as int].profile == a.profile);
                    assert(self@.bodies[j as int].profile == b.profile);
                }
                if now {
                    fresh.push(k);
                }
                if now != was {
                    let kind = if now {
                        EventKind::Begin
                    } else {
                        EventKind::End
                    };
                    if a.profile.id() <= b.profile.id() {
                        events.push((kind, a.profile, b.profile));
                    } else {
                        events.push((kind, b.profile, a.profile));
                    }
                }
                proof {
                    let row = self@.row_events(i as int, j as int);
                    let upto = self@.events_upto(i as int);
                    if now != was {
                        let ev = self@.event_of(i as int, j as int);
                        assert(events@ == (upto + row).push(ev));
                        assert((upto + row).push(ev) == upto + row.push(ev));
                    }
                    assert(events@ == upto + self@.row_events(i as int, j + 1));
                    assert forall|p: (u64, u64)| #[trigger]
                        fresh@.contains(p) <==> self.overlaps_among(i as int, j + 1, p) by {
                        self.lemma_among_step(i as int, j as int, p);
                        if fresh@.contains(p) {
                            let m = choose|m: int| 0 <= m < fresh@.len() && fresh@[m] == p;
                            if m < prior.len() {
                                assert(prior[m] == p);
                                assert(prior.contains(p));
                            }
                        }
                        if prior.contains(p) {
                            let m = choose|m: int| 0 <= m < prior.len() && prior[m] == p;
                            assert(fresh@[m] == p);
                        }
                        if now && p == k {
                            assert(fresh@[prior.len() as int] == p);
                        }
                    }
                }
                j += 1;
            }
            proof {
                assert forall|p: (u64, u64)| #[trigger]
                    fresh@.contains(p) <==> self.overlaps_among(i + 1, 0, p) by {
                    self.lemma_among_row_done(i as int, p);
                }
            }
            i += 1;
        }
        let ghost before = self@;
        self.contacts = fresh;
        proof {
            lemma_caught_up(before);
            assert(self@.contacts =~= before.caught_up().contacts) by {
                assert forall|p: (u64, u64)|
                    self@.contacts.contains(p) <==> before.caught_up().contacts.contains(p) by {
                    old(self).lemma_among_all(p);
                }
            }
        }
        events
    }

    /// Moves the clock forward to `time`, and every body with it, each at its
    /// own velocity. A `time` that is not later than the clock changes
    /// nothing: the clock never runs backward. The clock may not pass an
    /// instant at which an event is due.
    pub fn set_time(&mut self, time: u64)
        requires
            old(self).wf(),
            old(self)@.can_reach(time),
        ensures
            final(self).wf(),
            final(self)@ == old(self)@.at_time(time),
            final(self)@.time >= old(self)@.time,
    {
        if time <= self.time {
            return ;
        }
        let dt: u64 = time - self.time;
        let ghost before = self@;
        let n = self.entries.len();
        let mut i: usize = 0;
        while i < n
            invariant
                before.wf(),
                before.fits_after(dt as int),
                0 < dt <= TIME_MAX,
                n == self.entries.len(),
                n == before.bodies.len(),
                i <= n,
                self.time == before.time,
                self.contacts == old(self).contacts,
                forall|k: int|
                    0 <= k < i ==> #[trigger] self.entries@[k] == (Entry {
                        profile: before.bodies[k].profile,
                        hitbox: before.bodies[k].hitbox.advanced(dt as int),
                    }),
                forall|k: int| i <= k < n ==> #[trigger] self.entries@[k] == before.bodies[k],
            decreases n - i,
        {
            let e = self.entries[i];
            assert(before.bodies[i as int].wf());
            let moved = e.hitbox.advance(dt);
            self.entries.set(i, Entry { profile: e.profile, hitbox: moved });
            i += 1;
        }
        self.time = time;
        proof {
            assert(self@.bodies =~= before.at_time(time).bodies);
            assert(self@.contacts =~= before.contacts);
            lemma_at_time(before, time);
        }
    }

    /// Sets the clock to `time` where that can be done, and says whether it
    /// was done. Where it cannot, nothing changes.
    pub fn try_set_time(&mut self, time: u64) -> (r: bool)
        requires
            old(self).wf(),
        ensures
            final(self).wf(),
            r == old(self)@.can_reach(time),
            r ==> final(self)@ == old(self)@.at_time(time),
            !r ==> final(self)@ == old(self)@,
    {
        if time <= self.time {
            return true;
        }
        if time > TIME_MAX {
            return false;
        }
        let quiet = match self.next_time() {
            Some(t) => time <= t,
            None => true,
        };
        if !quiet {
            proof {
                let d = self@.next_time_spec()->0 - self@.time;
                assert(self@.changes_after(d));
            }
            return false;
        }
        proof {
            if self@.next_time_spec() is Some {
                let d = self@.next_time_spec()->0 - self@.time;
                assert(self@.quiet_before(d));
            }
        }
        let dt: u64 = time - self.time;
        let n = self.entries.len();
        let mut i: usize = 0;
        while i < n
            invariant
                self.wf(),
                n == self.entries.len(),
                i <= n,
                0 < dt <= TIME_MAX,
                dt == time - self.time,
                self.time < time <= TIME_MAX,
                self@ == old(self)@,
                self@.quiet_before(dt as int),
                forall|k: int|
                    0 <= k < i ==> (#[trigger] self.entries@[k]).hitbox.stays_in_range(dt as int),
            decreases n - i,
        {
            let hb = self.entries[i].hitbox;
            assert(self@.bodies[i as int].wf());
            if !hb.can_advance(dt) {
                assert(!self@.bodies[i as int].hitbox.stays_in_range(dt as int));
                return false;
            }
            i += 1;
        }
        self.set_time(time);
        true
    }
}

impl SpatialIndex {
    /// Whether `p` stands for a pair of overlapping bodies that comes before
    /// `(i, j)` in the order in which the pairs are visited.
    spec fn overlaps_among(self, i: int, j: int, p: (u64, u64)) -> bool {
        exists|a: int, b: int|
            self.visited(i, j, a, b) && p == #[trigger] key(
                self@.bodies[a].id(),
                self@.bodies[b].id(),
            ) && overlaps_after(self@.bodies[a].hitbox, self@.bodies[b].hitbox, 0)
    }

    /// No pair of a row is visited before the row begins.
    proof fn lemma_among_next_row(self, i: int, p: (u64, u64))
        requires
            0 <= i,
        ensures
            self.overlaps_among(i, 0, p) == self.overlaps_among(i, i + 1, p),
    {
        if self.overlaps_among(i, 0, p) {
            let (a, b) = choose|a: int, b: int|
                self.visited(i, 0, a, b) && p == #[trigger] key(
                    self@.bodies[a].id(),
                    self@.bodies[b].id(),
                ) && overlaps_after(self@.bodies[a].hitbox, self@.bodies[b].hitbox, 0);
            assert(self.visited(i, i + 1, a, b));
        }
        if self.overlaps_among(i, i + 1, p) {
            let (a, b) = choose|a: int, b: int|
                self.visited(i, i + 1, a, b) && p == #[trigger] key(
                    self@.bodies[a].id(),
                    self@.bodies[b].id(),
                ) && overlaps_after(self@.bodies[a].hitbox, self@.bodies[b].hitbox, 0);
            assert(self.visited(i, 0, a, b));
        }
    }

    /// One step along a row visits one more pair.
    proof fn lemma_among_step(self, i: int, j: int, p: (u64, u64))
        requires
            0 <= i < j < self@.bodies.len(),
        ensures
            self.overlaps_among(i, j + 1, p) == (self.overlaps_among(i, j, p) || (p == key(
                self@.bodies[i].id(),
                self@.bodies[j].id(),
            ) && overlaps_after(self@.bodies[i].hitbox, self@.bodies[j].hitbox, 0))),
    {
        if self.overlaps_among(i, j + 1, p) {
            let (a, b) = choose|a: int, b: int|
                self.visited(i, j + 1, a, b) && p == #[trigger] key(
                    self@.bodies[a].id(),
                    self@.bodies[b].id(),
                ) && overlaps_after(self@.bodies[a].hitbox, self@.bodies[b].hitbox, 0);
            if !(a == i && b == j) {
                assert(self.visited(i, j, a, b));
            }
        }
        if self.overlaps_among(i, j, p) {
            let (a, b) = choose|a: int, b: int|
                self.visited(i, j, a, b) && p == #[trigger] key(
                    self@.bodies[a].id(),
                    self@.bodies[b].id(),
                ) && overlaps_after(self@.bodies[a].hitbox, self@.bodies[b].hitbox, 0);
            assert(self.visited(i, j + 1, a, b));
        }
        if p == key(self@.bodies[i].id(), self@.bodies[j].id()) && overlaps_after(
            self@.bodies[i].hitbox,
            self@.bodies[j].hitbox,
            0,
        ) {
            assert(self.visited(i, j + 1, i, j));
        }
    }

    /// The end of a row is the start of the next.
    proof fn lemma_among_row_done(self, i: int, p: (u64, u64))
        requires
            0 <= i < self@.bodies.len(),
        ensures
            self.overlaps_among(i, self@.bodies.len() as int, p) == self.overlaps_among(
                i + 1,
                0,
                p,
            ),
    {
        let n = self@.bodies.len() as int;
        if self.overlaps_among(i, n, p) {
            let (a, b) = choose|a: int, b: int|
                self.visited(i, n, a, b) && p == #[trigger] key(
                    self@.bodies[a].id(),
                    self@.bodies[b].id(),
                ) && overlaps_after(self@.bodies[a].hitbox, self@.bodies[b].hitbox, 0);
            assert(self.visited(i + 1, 0, a, b));
        }
        if self.overlaps_among(i + 1, 0, p) {
            let (a, b) = choose|a: int, b: int|
                self.visited(i + 1, 0, a, b) && p == #[trigger] key(
                    self@.bodies[a].id(),
                    self@.bodies[b].id(),
                ) && overlaps_after(self@.bodies[a].hitbox, self@.bodies[b].hitbox, 0);
            assert(self.visited(i, n, a, b));
        }
    }

    /// Once all pairs are visited, the overlapping pairs are the contacts of the
    /// state that has caught up.
    proof fn lemma_among_all(self, p: (u64, u64))
        ensures
            self.overlaps_among(self@.bodies.len() as int, 0, p)
                == self@.caught_up().contacts.contains(p),
    {
        let n = self@.bodies.len() as int;
        if self.overlaps_among(n, 0, p) {
            let (a, b) = choose|a: int, b: int|
                self.visited(n, 0, a, b) && p == #[trigger] key(
                    self@.bodies[a].id(),
                    self@.bodies[b].id(),
                ) && overlaps_after(self@.bodies[a].hitbox, self@.bodies[b].hitbox, 0);
            assert(0 <= a < b < n);
        }
        if self@.caught_up().contacts.contains(p) {
            let (a, b) = choose|a: int, b: int|
                0 <= a < b < self@.bodies.len() && p == #[trigger] key(
                    self@.bodies[a].id(),
                    self@.bodies[b].id(),
                ) && overlaps_after(self@.bodies[a].hitbox, self@.bodies[b].hitbox, 0);
            assert(self.visited(n, 0, a, b));
        }
    }

    /// Whether the pair of places `(a, b)` comes before `(i, j)` in the order
    /// in which the pairs are visited.
    spec fn visited(self, i: int, j: int, a: int, b: int) -> bool {
        0 <= a < b < self@.bodies.len() && (a < i || (a == i && b < j))
    }

    /// Whether `best` is the earliest change among the pairs visited before
    /// `(i, j)`.
    spec fn best_so_far(self, i: int, j: int, best: Option<u64>) -> bool {
        &&& forall|a: int, b: int, t: int|
            self.visited(i, j, a, b) && 0 <= t && (best is Some ==> t < best->0)
                ==> !#[trigger] self@.pair_changes(a, b, t)
        &&& best is Some ==> (best->0 <= NUM_MAX + 1 && exists|a: int, b: int|
            self.visited(i, j, a, b) && #[trigger] self@.pair_changes(a, b, best->0 as int))
    }

    /// No pair of a row is visited before the row begins.
    proof fn lemma_best_next_row(self, i: int, best: Option<u64>)
        requires
            self.best_so_far(i, 0, best),
            0 <= i,
        ensures
            self.best_so_far(i, i + 1, best),
    {
        if best is Some {
            let (a, b) = choose|a: int, b: int|
                self.visited(i, 0, a, b) && #[trigger] self@.pair_changes(a, b, best->0 as int);
            assert(self.visited(i, i + 1, a, b));
        }
    }

    /// The earliest change stays the earliest when the change of one more pair
    /// is taken in.
    proof fn lemma_best_step(
        self,
        i: int,
        j: int,
        prior: Option<u64>,
        found: Option<u64>,
        best: Option<u64>,
    )
        requires
            self.wf(),
            0 <= i < j < self@.bodies.len(),
            self.best_so_far(i, j, prior),
            match found {
                Some(s) => is_first_change(
                    self@.bodies[i].hitbox,
                    self@.bodies[j].hitbox,
                    self@.in_contact(self@.bodies[i].id(), self@.bodies[j].id()),
                    s as int,
                ) && s <= NUM_MAX + 1,
                None => never_changes(
                    self@.bodies[i].hitbox,
                    self@.bodies[j].hitbox,
                    self@.in_contact(self@.bodies[i].id(), self@.bodies[j].id()),
                ),
            },
            best == (match found {
                Some(s) => if prior is None || s < prior->0 {
                    found
                } else {
                    prior
                },
                None => prior,
            }),
        ensures
            self.best_so_far(i, j + 1, best),
            if j + 1 < self@.bodies.len() {
                true
            } else {
                self.best_so_far(i + 1, 0, best)
            },
    {
        assert forall|a: int, b: int, t: int|
            self.visited(i, j + 1, a, b) && 0 <= t && (best is Some ==> t < best->0)
                implies !#[trigger] self@.pair_changes(a, b, t) by {
            if a == i && b == j {
            } else {
                assert(self.visited(i, j, a, b));
            }
        }
        if best is Some {
            if found is Some && best == found {
                assert(self.visited(i, j + 1, i, j));
                assert(self@.pair_changes(i, j, best->0 as int));
            } else {
                let (a, b) = choose|a: int, b: int|
                    self.visited(i, j, a, b) && #[trigger] self@.pair_changes(
                        a,
                        b,
                        prior->0 as int,
                    );
                assert(self.visited(i, j + 1, a, b));
            }
        }
        if j + 1 >= self@.bodies.len() {
            if best is Some {
                let (a, b) = choose|a: int, b: int|
                    self.visited(i, j + 1, a, b) && #[trigger] self@.pair_changes(
                        a,
                        b,
                        best->0 as int,
                    );
                assert(self.visited(i + 1, 0, a, b));
            }
        }
    }

    /// The earliest change among all pairs is the next event of the state.
    proof fn lemma_best_done(self, best: Option<u64>)
        requires
            self.wf(),
            self.best_so_far(self@.bodies.len() as int, 0, best),
        ensures
            match best {
                Some(s) => self@.is_next_change(s as int) && self@.next_time_spec() == Some(
                    (self@.time + s) as u64,
                ) && s <= NUM_MAX + 1,
                None => self@.next_time_spec() is None && forall|s: int|
                    0 <= s ==> !#[trigger] self@.changes_after(s),
            },
    {
        let n = self@.bodies.len() as int;
        assert forall|t: int| 0 <= t && (best is Some ==> t < best->0) implies !#[trigger] self@.changes_after(
            t,
        ) by {
            if self@.changes_after(t) {
                let (a, b) = choose|a: int, b: int|
                    0 <= a < b < self@.bodies.len() && #[trigger] self@.pair_changes(a, b, t);
                assert(self.visited(n, 0, a, b));
            }
        }
        match best {
            Some(s) => {
                let (a, b) = choose|a: int, b: int|
                    self.visited(n, 0, a, b) && #[trigger] self@.pair_changes(a, b, s as int);
                assert(self@.changes_after(s as int));
                assert(self@.is_next_change(s as int));
                let c = choose|c: int| self@.is_next_change(c);
                lemma_next_change_unique(self@, c, s as int);
            },
            None => {
                assert forall|s: int| !self@.is_next_change(s) by {}
            },
        }
    }
}

} // verus!
