//! The collision system: once per tick it takes the wanted velocities, moves
//! the clock of the spatial index from event to event up to the end of the
//! tick, resolves every contact that begins on the way together with the
//! contacts that a resolution brings about, and writes the outcome back.

use vstd::prelude::*;
use std::collections::VecDeque;
use crate::components::{Motion, MovingBody, Position};
use crate::geom::{Hitbox, PlacedShape, Shape, Vec2, POS_LIMIT, VEL_MAX};
use crate::index::SpatialIndex;
use crate::physics::{
    Profile, SMALL, add_box_collider, entities_handled, handle_entity_collision,
    handle_wall_collision, wall_handled,
};
use crate::state::{key, CollisionError, Entry, EventKind, IndexState};
use crate::state_laws::{
    lemma_at_time, lemma_at_time_within, lemma_caught_up, lemma_follows, lemma_with_vel,
};
use crate::systems::tick::{
    advance, all_followed, all_known, all_valid, cascade, collisions, collisions_upto,
    conditions_of, keeps, lemma_at_time_keeps, lemma_caught_up_keeps,
    lemma_entities_handled, lemma_entities_handled_keeps, lemma_keeps_all_followed,
    lemma_keeps_chain, lemma_keeps_follows, lemma_wall_handled, lemma_wall_handled_keeps,
    lemma_with_vel_keeps, paired, resolve_now, rest_of_tick, same_bodies, stop_after, synced,
    synced_upto, written_back, Run, CASCADE_LIMIT, STEP_ROOM, TICK, TICKS_MAX,
};

verus! {

/// Picks from the events the contacts that begin, without the pairs of two
/// walls.
fn collect(events: &Vec<(EventKind, Profile, Profile)>, Ghost(s): Ghost<IndexState>) -> (queue:
    VecDeque<(Profile, Profile)>)
    requires
        forall|k: int|
            0 <= k < events@.len() ==> s.follows((#[trigger] events@[k]).1) && s.follows(
                events@[k].2,
            ),
    ensures
        queue@ == collisions(events@),
        all_followed(s, queue@),
{
    let mut queue: VecDeque<(Profile, Profile)> = VecDeque::new();
    let mut i: usize = 0;
    while i < events.len()
        invariant
            i <= events.len(),
            queue@ == collisions_upto(events@, i as int),
            all_followed(s, queue@),
            forall|k: int|
                0 <= k < events@.len() ==> s.follows((#[trigger] events@[k]).1) && s.follows(
                    events@[k].2,
                ),
        decreases events.len() - i,
    {
        assert(s.follows(events@[i as int].1) && s.follows(events@[i as int].2));
        let (kind, p_1, p_2) = events[i];
        if kind == EventKind::Begin && !(p_1.wall && p_2.wall) {
            queue.push_back((p_1, p_2));
        }
        i += 1;
    }
    queue
}

/// Puts the pairs of `p` with each of `others` at the end of the queue.
fn enqueue(
    queue: &mut VecDeque<(Profile, Profile)>,
    p: Profile,
    others: &Vec<Profile>,
    Ghost(s): Ghost<IndexState>,
)
    requires
        all_followed(s, old(queue)@),
        s.follows(p),
        forall|k: int| 0 <= k < others@.len() ==> s.follows(#[trigger] others@[k]),
    ensures
        final(queue)@ == old(queue)@ + paired(p, others@),
        all_followed(s, final(queue)@),
{
    let mut i: usize = 0;
    while i < others.len()
        invariant
            i <= others.len(),
            queue@ == old(queue)@ + paired(p, others@.take(i as int)),
            all_followed(s, queue@),
            s.follows(p),
            forall|k: int| 0 <= k < others@.len() ==> s.follows(#[trigger] others@[k]),
        decreases others.len() - i,
    {
        let other = others[i];
        assert(s.follows(others@[i as int]));
        queue.push_back((p, other));
        proof {
            assert(others@.take(i + 1) == others@.take(i as int).push(other));
            assert(paired(p, others@.take(i + 1)) == paired(p, others@.take(i as int)).push(
                (p, other),
            ));
            assert(queue@ == old(queue)@ + paired(p, others@.take(i + 1)));
        }
        i += 1;
    }
    assert(others@.take(others@.len() as int) == others@);
}

/// The part of a tick's progress that is kept beside the index.
struct Progress {
    budget: usize,
    degenerate: Vec<(Profile, Profile)>,
    overflow: bool,
}

/// The progress of a tick as one value.
spec fn run_of(collider: &SpatialIndex, progress: &Progress) -> Run {
    Run {
        index: collider@,
        budget: progress.budget as nat,
        degenerate: progress.degenerate@,
        overflow: progress.overflow,
    }
}

/// Works off the queue of contacts.
fn run_cascade(
    collider: &mut SpatialIndex,
    progress: &mut Progress,
    queue: VecDeque<(Profile, Profile)>,
    Ghost(limit): Ghost<int>,
)
    requires
        old(collider).wf(),
        old(collider)@.settled(),
        old(collider)@.within(limit - SMALL * old(progress).budget),
        limit <= POS_LIMIT,
        all_followed(old(collider)@, queue@),
    ensures
        final(collider).wf(),
        final(collider)@.settled(),
        final(collider)@.within(limit - SMALL * final(progress).budget),
        same_bodies(final(collider)@, old(collider)@),
        keeps(old(collider)@, final(collider)@),
        final(progress).budget <= old(progress).budget,
        run_of(final(collider), final(progress)) == cascade(
            run_of(old(collider), old(progress)),
            queue@,
        ),
{
    let mut queue = queue;
    let mut stopped = false;
    let ghost target = cascade(run_of(collider, progress), queue@);
    while !stopped && queue.len() > 0
        invariant
            collider.wf(),
            collider@.settled(),
            collider@.within(limit - SMALL * progress.budget),
            limit <= POS_LIMIT,
            same_bodies(collider@, old(collider)@),
            keeps(old(collider)@, collider@),
            old(collider).wf(),
            all_followed(collider@, queue@),
            progress.budget <= old(progress).budget,
            stopped ==> run_of(collider, progress) == target,
            !stopped ==> cascade(run_of(collider, progress), queue@) == target,
        decreases progress.budget, queue.len(),
    {
        let ghost s = collider@;
        let ghost run = run_of(collider, progress);
        let ghost bound = limit - SMALL * progress.budget;
        let ghost full = queue@;
        let (p_1, p_2) = queue.pop_front().unwrap();
        let ghost rest = queue@;
        proof {
            assert(s.follows(full[0].0) && s.follows(full[0].1));
            assert forall|k: int| 0 <= k < rest.len() implies s.follows((#[trigger] rest[k]).0)
                && s.follows(rest[k].1) by {
                assert(rest[k] == full[k + 1]);
            }
            lemma_follows(s, p_1);
            lemma_follows(s, p_2);
        }
        if p_1.wall && p_2.wall {
            // Walls do not collide with walls.
        } else if !collider.is_overlapping(p_1.id(), p_2.id()) {
            // The contact is no longer there.
        } else {
            assert(s.contains(p_1.id_spec()) && s.contains(p_2.id_spec()) && p_1.id_spec()
                != p_2.id_spec()) by {
                assert(s.contacts.contains(key(p_1.id_spec(), p_2.id_spec())));
            }
            let hb_1 = collider.get_hitbox(p_1.id()).unwrap();
            let hb_2 = collider.get_hitbox(p_2.id()).unwrap();
            proof {
                assert(s.bodies[s.position(p_1.id_spec())].hitbox.value.pos.within(bound));
                assert(s.bodies[s.position(p_2.id_spec())].hitbox.value.pos.within(bound));
            }
            if hb_1.value.coincides(&hb_2.value) {
                progress.degenerate.push((p_1, p_2));
            } else if progress.budget == 0 {
                progress.overflow = true;
                stopped = true;
            } else if p_1.wall {
                proof {
                    lemma_wall_handled(s, p_2, p_1, bound);
                    lemma_wall_handled_keeps(s, p_2, p_1);
                    let t = wall_handled(s, p_2, p_1);
                    lemma_keeps_chain(old(collider)@, s, t);
                    lemma_keeps_all_followed(s, t, rest);
                    lemma_keeps_follows(s, t, p_2);
                }
                let new_collisions = handle_wall_collision(p_2, p_1, collider);
                enqueue(&mut queue, p_2, &new_collisions, Ghost(collider@));
                progress.budget = progress.budget - 1;
            } else if p_2.wall {
                proof {
                    lemma_wall_handled(s, p_1, p_2, bound);
                    lemma_wall_handled_keeps(s, p_1, p_2);
                    let t = wall_handled(s, p_1, p_2);
                    lemma_keeps_chain(old(collider)@, s, t);
                    lemma_keeps_all_followed(s, t, rest);
                    lemma_keeps_follows(s, t, p_1);
                }
                let new_collisions = handle_wall_collision(p_1, p_2, collider);
                enqueue(&mut queue, p_1, &new_collisions, Ghost(collider@));
                progress.budget = progress.budget - 1;
            } else {
                proof {
                    lemma_entities_handled(s, p_1, p_2, bound);
                    lemma_entities_handled_keeps(s, p_1, p_2);
                    let t = entities_handled(s, p_1, p_2);
                    lemma_keeps_chain(old(collider)@, s, t);
                    lemma_keeps_all_followed(s, t, rest);
                    lemma_keeps_follows(s, t, p_1);
                    lemma_keeps_follows(s, t, p_2);
                }
                let (first, second) = handle_entity_collision(p_1, p_2, collider);
                enqueue(&mut queue, p_1, &first, Ghost(collider@));
                enqueue(&mut queue, p_2, &second, Ghost(collider@));
                progress.budget = progress.budget - 1;
            }
        }
    }
}

/// Takes the events that are due now from the index and resolves the
/// contacts that begin.
fn settle(collider: &mut SpatialIndex, progress: &mut Progress, Ghost(limit): Ghost<int>)
    requires
        old(collider).wf(),
        old(collider)@.within(limit - SMALL * old(progress).budget),
        limit <= POS_LIMIT,
    ensures
        final(collider).wf(),
        final(collider)@.settled(),
        final(collider)@.within(limit - SMALL * final(progress).budget),
        same_bodies(final(collider)@, old(collider)@),
        keeps(old(collider)@, final(collider)@),
        final(progress).budget <= old(progress).budget,
        run_of(final(collider), final(progress)) == resolve_now(
            run_of(old(collider), old(progress)),
        ),
{
    let ghost s = collider@;
    let events = collider.next();
    // Collect the contacts that begin.
    proof {
        lemma_caught_up_keeps(s);
    }
    let collisions = collect(&events, Ghost(collider@));
    proof {
        lemma_caught_up(s);
        assert(s.caught_up().bodies == s.bodies);
        assert(same_bodies(s.caught_up(), s)) by {
            assert forall|x: u64| #[trigger] s.caught_up().contains(x) == s.contains(x) by {
                if s.caught_up().contains(x) {
                    let k = choose|k: int|
                        0 <= k < s.bodies.len() && #[trigger] s.caught_up().bodies[k].id() == x;
                    assert(s.bodies[k].id() == x);
                }
                if s.contains(x) {
                    let k = choose|k: int| 0 <= k < s.bodies.len() && #[trigger] s.bodies[k].id() == x;
                    assert(s.caught_up().bodies[k].id() == x);
                }
            }
        }
        assert(s.caught_up().within(limit - SMALL * progress.budget)) by {
            assert forall|k: int| 0 <= k < s.bodies.len() implies (
            #[trigger] s.caught_up().bodies[k]).hitbox.value.pos.within(
                limit - SMALL * progress.budget,
            ) by {
                assert(s.bodies[k].hitbox.value.pos.within(limit - SMALL * progress.budget));
            }
        }
    }
    // Handle all of them.
    run_cascade(collider, progress, collisions, Ghost(limit));
    proof {
        lemma_keeps_chain(s, s.caught_up(), collider@);
    }
}

/// Hands the wanted velocities to the index.
fn sync_velocities(collider: &mut SpatialIndex, bodies: &Vec<MovingBody>, Ghost(bound): Ghost<int>)
    requires
        old(collider).wf(),
        all_known(old(collider)@, bodies@),
        all_valid(bodies@),
        old(collider)@.within(bound),
    ensures
        final(collider).wf(),
        final(collider)@ == synced(old(collider)@, bodies@),
        same_bodies(final(collider)@, old(collider)@),
        keeps(old(collider)@, final(collider)@),
        final(collider)@.within(bound),
{
    let mut i: usize = 0;
    while i < bodies.len()
        invariant
            i <= bodies.len(),
            collider.wf(),
            all_known(old(collider)@, bodies@),
            all_valid(bodies@),
            collider@ == synced_upto(old(collider)@, bodies@, i as int),
            same_bodies(collider@, old(collider)@),
            keeps(old(collider)@, collider@),
            collider@.within(bound),
        decreases bodies.len() - i,
    {
        let body = bodies[i];
        assert(bodies@[i as int].wf() && old(collider)@.contains(bodies@[i as int].id()));
        if let Some(motion) = body.motion {
            let ghost s = collider@;
            proof {
                lemma_with_vel(s, body.id(), motion.velocity);
                lemma_with_vel_keeps(s, body.id(), motion.velocity);
                lemma_keeps_chain(old(collider)@, s, s.with_vel(body.id(), motion.velocity));
                assert(s.with_vel(body.id(), motion.velocity).within(bound)) by {
                    let t = s.with_vel(body.id(), motion.velocity);
                    assert forall|k: int| 0 <= k < t.bodies.len() implies (
                    #[trigger] t.bodies[k]).hitbox.value.pos.within(bound) by {
                        assert(s.bodies[k].hitbox.value.pos.within(bound));
                    }
                }
            }
            let _ = collider.set_hitbox_vel(body.collider.0, motion.velocity);
        }
        i += 1;
    }
}

/// Whether every body names a collider that the index follows.
fn knows_all(collider: &SpatialIndex, bodies: &Vec<MovingBody>) -> (r: bool)
    requires
        collider.wf(),
    ensures
        r == all_known(collider@, bodies@),
{
    let mut i: usize = 0;
    while i < bodies.len()
        invariant
            i <= bodies.len(),
            collider.wf(),
            forall|k: int| 0 <= k < i ==> collider@.contains((#[trigger] bodies@[k]).id()),
        decreases bodies.len() - i,
    {
        if !collider.contains(bodies[i].collider.0) {
            assert(!collider@.contains(bodies@[i as int].id()));
            return false;
        }
        i += 1;
    }
    true
}

/// Writes the position of each hitbox back to its body, and its velocity
/// where the body has a motion.
fn write_back(collider: &SpatialIndex, bodies: &mut Vec<MovingBody>)
    requires
        collider.wf(),
        all_known(collider@, old(bodies)@),
    ensures
        final(bodies)@.len() == old(bodies)@.len(),
        forall|k: int|
            0 <= k < old(bodies)@.len() ==> #[trigger] final(bodies)@[k] == written_back(
                collider@,
                old(bodies)@[k],
            ),
{
    let n = bodies.len();
    let mut i: usize = 0;
    while i < n
        invariant
            i <= n,
            n == bodies@.len(),
            n == old(bodies)@.len(),
            collider.wf(),
            all_known(collider@, old(bodies)@),
            forall|k: int|
                0 <= k < i ==> #[trigger] bodies@[k] == written_back(collider@, old(bodies)@[k]),
            forall|k: int| i <= k < n ==> #[trigger] bodies@[k] == old(bodies)@[k],
        decreases n - i,
    {
        let body = bodies[i];
        assert(collider@.contains(old(bodies)@[i as int].id()));
        let hb = collider.get_hitbox(body.collider.0).unwrap();
        // Update pos, and the velocity of a body that has one.
        let motion = match body.motion {
            Some(_) => Some(Motion { velocity: hb.vel }),
            None => None,
        };
        bodies.set(
            i,
            MovingBody { position: Position(hb.value.pos), motion, collider: body.collider },
        );
        i += 1;
    }
}

/// What a tick reports besides what it does to the bodies: the pairs that it
/// skipped because their shapes coincide, and whether it dropped contacts
/// because it ran out of resolutions.
#[derive(Debug)]
pub struct StepReport {
    pub degenerate: Vec<(Profile, Profile)>,
    pub overflow: bool,
}

impl StepReport {
    /// The conditions that the tick met, for the caller to log: one
    /// `DegenerateNormal` for each pair that was skipped, then one
    /// `CascadeOverflow` where contacts were dropped.
    pub fn conditions(&self) -> (r: Vec<CollisionError>)
        ensures
            r@ == conditions_of(self.degenerate@, self.overflow),
    {
        let mut out: Vec<CollisionError> = Vec::new();
        let mut i: usize = 0;
        while i < self.degenerate.len()
            invariant
                i <= self.degenerate.len(),
                out@ == self.degenerate@.take(i as int).map_values(
                    |p: (Profile, Profile)| CollisionError::DegenerateNormal,
                ),
            decreases self.degenerate.len() - i,
        {
            out.push(CollisionError::DegenerateNormal);
            proof {
                let f = |p: (Profile, Profile)| CollisionError::DegenerateNormal;
                assert(self.degenerate@.take(i + 1) == self.degenerate@.take(i as int).push(
                    self.degenerate@[i as int],
                ));
                assert(self.degenerate@.take(i + 1).map_values(f) == self.degenerate@.take(
                    i as int,
                ).map_values(f).push(CollisionError::DegenerateNormal));
            }
            i += 1;
        }
        assert(self.degenerate@.take(self.degenerate@.len() as int) == self.degenerate@);
        if self.overflow {
            out.push(CollisionError::CascadeOverflow);
        }
        out
    }
}

/// The collision system. It owns the spatial index and counts the ticks.
pub struct CollisionSystem {
    tick: u64,
    collider: SpatialIndex,
}

impl CollisionSystem {
    /// The number of ticks that have passed.
    pub closed spec fn ticks(&self) -> u64 {
        self.tick
    }

    /// The content of the spatial index.
    pub closed spec fn index(&self) -> IndexState {
        self.collider@
    }

    /// The system is well formed when its index is, and the clock of the
    /// index stands at the end of the last tick.
    pub closed spec fn wf(&self) -> bool {
        &&& self.collider.wf()
        &&& self.tick <= TICKS_MAX
        &&& self.collider@.time == self.tick * TICK
    }

    /// Whether the system can run one more tick on these bodies: the wanted
    /// velocities are valid, the tick count has not reached `TICKS_MAX`, and
    /// every centre is at least `STEP_ROOM` away from `POS_LIMIT`.
    pub open spec fn can_step_spec(&self, bodies: Seq<MovingBody>) -> bool {
        &&& all_valid(bodies)
        &&& self.ticks() < TICKS_MAX
        &&& self.index().within(POS_LIMIT - STEP_ROOM)
    }

    /// What a tick makes of the index and of the rest of its progress.
    pub open spec fn step_spec(&self, bodies: Seq<MovingBody>) -> Run {
        advance(
            Run {
                index: synced(self.index(), bodies),
                budget: CASCADE_LIMIT as nat,
                degenerate: Seq::empty(),
                overflow: false,
            },
            self.index().time,
            ((self.ticks() + 1) * TICK) as u64,
        )
    }

    /// A system without bodies, before its first tick.
    pub fn new() -> (r: Self)
        ensures
            r.wf(),
            r.ticks() == 0,
            r.index().time == 0,
            r.index().bodies == Seq::<Entry>::empty(),
            r.index().contacts == Set::<(u64, u64)>::empty(),
    {
        CollisionSystem { tick: 0, collider: SpatialIndex::new() }
    }

    /// The spatial index, to look things up in.
    pub fn collider(&self) -> (r: &SpatialIndex)
        requires
            self.wf(),
        ensures
            r@ == self.index(),
            r.wf(),
    {
        &self.collider
    }

    /// The number of ticks that have passed.
    pub fn tick(&self) -> (r: u64)
        ensures
            r == self.ticks(),
    {
        self.tick
    }

    /// Starts to follow a body: the shape, at rest at `placement`, as a wall
    /// or as a body that can move. An identity that is already in use is
    /// refused and nothing changes.
    pub fn register_body(&mut self, id: u32, shape: Shape, placement: Vec2, is_wall: bool) -> (r:
        Result<(), CollisionError>)
        requires
            old(self).wf(),
            (PlacedShape { pos: placement, shape }).wf(),
        ensures
            final(self).wf(),
            final(self).ticks() == old(self).ticks(),
            match r {
                Ok(_) => {
                    &&& !old(self).index().contains(id as u64)
                    &&& final(self).index() == old(self).index().added(
                        Profile { id, wall: is_wall },
                        Hitbox {
                            value: PlacedShape { pos: placement, shape },
                            vel: Vec2 { x: 0, y: 0 },
                        },
                    )
                },
                Err(e) => {
                    &&& e == CollisionError::DuplicateBodyId
                    &&& old(self).index().contains(id as u64)
                    &&& final(self).index() == old(self).index()
                },
            },
    {
        let hitbox = shape.place(placement).still();
        match add_box_collider(id, hitbox, is_wall, &mut self.collider) {
            Ok(_) => Ok(()),
            Err(e) => Err(e),
        }
    }

    /// Stops following a body, and returns the handles of the bodies that it
    /// was in contact with. An identity that is not in use is refused and
    /// nothing changes.
    pub fn unregister_body(&mut self, id: u32) -> (r: Result<Vec<Profile>, CollisionError>)
        requires
            old(self).wf(),
        ensures
            final(self).wf(),
            final(self).ticks() == old(self).ticks(),
            match r {
                Ok(v) => {
                    &&& old(self).index().contains(id as u64)
                    &&& final(self).index() == old(self).index().removed(id as u64)
                    &&& v@ == old(self).index().partners(id as u64)
                },
                Err(e) => {
                    &&& e == CollisionError::UnknownBodyId
                    &&& !old(self).index().contains(id as u64)
                    &&& final(self).index() == old(self).index()
                },
            },
    {
        self.collider.remove_hitbox(id as u64)
    }

    /// Executable test of `can_step_spec`.
    pub fn can_step(&self, bodies: &Vec<MovingBody>) -> (r: bool)
        requires
            self.wf(),
        ensures
            r == self.can_step_spec(bodies@),
    {
        if self.tick >= TICKS_MAX {
            return false;
        }
        let mut i: usize = 0;
        while i < bodies.len()
            invariant
                i <= bodies.len(),
                forall|k: int| 0 <= k < i ==> (#[trigger] bodies@[k]).wf(),
            decreases bodies.len() - i,
        {
            if !bodies[i].is_valid() {
                assert(!bodies@[i as int].wf());
                return false;
            }
            i += 1;
        }
        let bound: i64 = POS_LIMIT - STEP_ROOM;
        let n = self.collider.len();
        let mut j: usize = 0;
        while j < n
            invariant
                j <= n,
                n == self.collider@.bodies.len(),
                bound == POS_LIMIT - STEP_ROOM,
                forall|k: int|
                    0 <= k < j ==> (#[trigger] self.collider@.bodies[k]).hitbox.value.pos.within(
                        bound as int,
                    ),
            decreases n - j,
        {
            let pos = self.collider.entry_at(j).hitbox.value.pos;
            if !(-bound <= pos.x && pos.x <= bound && -bound <= pos.y && pos.y <= bound) {
                assert(!self.collider@.bodies[j as int].hitbox.value.pos.within(bound as int));
                return false;
            }
            j += 1;
        }
        true
    }

    /// Runs one tick. The bodies hand in their wanted velocities; the clock
    /// moves from event to event up to the end of the tick, and at each stop
    /// the contacts that begin are resolved, with the contacts that the
    /// resolutions bring about; at the end each body gets the position of its
    /// hitbox, and its velocity where it has a motion. A body whose collider
    /// the index does not follow is refused, and nothing changes.
    pub fn step(&mut self, bodies: &mut Vec<MovingBody>) -> (r: Result<StepReport, CollisionError>)
        requires
            old(self).wf(),
            old(self).can_step_spec(old(bodies)@),
        ensures
            final(self).wf(),
            match r {
                Ok(report) => {
                    let run = old(self).step_spec(old(bodies)@);
                    &&& all_known(old(self).index(), old(bodies)@)
                    &&& final(self).ticks() == old(self).ticks() + 1
                    &&& final(self).index() == run.index
                    &&& final(self).index().time == final(self).ticks() * TICK
                    &&& final(self).index().settled()
                    &&& keeps(old(self).index(), final(self).index())
                    &&& report.degenerate@ == run.degenerate
                    &&& report.overflow == run.overflow
                    &&& final(bodies)@.len() == old(bodies)@.len()
                    &&& forall|k: int|
                        0 <= k < old(bodies)@.len() ==> #[trigger] final(bodies)@[k]
                            == written_back(run.index, old(bodies)@[k])
                },
                Err(e) => {
                    &&& e == CollisionError::UnknownBodyId
                    &&& !all_known(old(self).index(), old(bodies)@)
                    &&& final(self).index() == old(self).index()
                    &&& final(self).ticks() == old(self).ticks()
                    &&& final(bodies)@ == old(bodies)@
                },
            },
    {
        if !knows_all(&self.collider, bodies) {
            return Err(CollisionError::UnknownBodyId);
        }
        let ghost target = self.step_spec(bodies@);
        let ghost before = self.collider@;
        // Update motion from the bodies to the index.
        sync_velocities(&mut self.collider, bodies, Ghost(POS_LIMIT - STEP_ROOM));
        let end_time: u64 = (self.tick + 1) * TICK;
        let mut progress = Progress {
            budget: CASCADE_LIMIT,
            degenerate: Vec::new(),
            overflow: false,
        };
        // Resolve what is due at once, then advance to the end of the tick.
        let ghost synced_state = self.collider@;
        settle(&mut self.collider, &mut progress, Ghost(POS_LIMIT - VEL_MAX * TICK));
        proof {
            lemma_keeps_chain(before, synced_state, self.collider@);
        }
        while self.collider.time() < end_time
            invariant
                self.collider.wf(),
                self.collider@.settled(),
                end_time == (self.tick + 1) * TICK,
                self.tick < TICKS_MAX,
                end_time - TICK <= self.collider@.time <= end_time,
                self.collider@.within(
                    POS_LIMIT - VEL_MAX * (end_time - self.collider@.time) - SMALL
                        * progress.budget,
                ),
                progress.budget <= CASCADE_LIMIT,
                forall|x: u64| #[trigger] self.collider@.contains(x) == before.contains(x),
                keeps(before, self.collider@),
                target == rest_of_tick(
                    run_of(&self.collider, &progress),
                    self.collider@.time,
                    end_time,
                ),
            decreases end_time - self.collider@.time,
        {
            let ghost s = self.collider@;
            // Advance to the next event or to the end of the tick.
            let time = match self.collider.next_time() {
                Some(t) => if t < end_time {
                    t
                } else {
                    end_time
                },
                None => end_time,
            };
            proof {
                assert(time == stop_after(s, s.time, end_time) && time > s.time) by {
                    if s.next_time_spec() is Some {
                        let d = s.next_time_spec()->0 - s.time;
                        assert(s.is_next_change(d));
                        assert(d != 0);
                    }
                }
                assert(s.quiet_before(time - s.time)) by {
                    if s.next_time_spec() is Some {
                        let d = s.next_time_spec()->0 - s.time;
                        assert(s.quiet_before(d));
                    }
                }
                let bound = POS_LIMIT - VEL_MAX * (end_time - s.time) - SMALL * progress.budget;
                lemma_at_time_within(s, time, bound);
                lemma_at_time(s, time);
                lemma_at_time_keeps(s, time);
                lemma_keeps_chain(before, s, s.at_time(time));
                assert(bound + VEL_MAX * (time - s.time) == POS_LIMIT - VEL_MAX * (end_time - time)
                    - SMALL * progress.budget);
            }
            self.collider.set_time(time);
            settle(
                &mut self.collider,
                &mut progress,
                Ghost(POS_LIMIT - VEL_MAX * (end_time - time)),
            );
            proof {
                lemma_keeps_chain(before, s.at_time(time), self.collider@);
            }
        }
        self.tick = self.tick + 1;
        // Update the bodies.
        write_back(&self.collider, bodies);
        Ok(StepReport { degenerate: progress.degenerate, overflow: progress.overflow })
    }
}

} // verus!
