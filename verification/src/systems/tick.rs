//! One tick of the collision system, as mathematics: the wanted velocities
//! go to the index, the clock moves from stop to stop up to the end of the
//! tick, the contacts that begin at each stop are resolved together with the
//! contacts that a resolution brings about, and the outcome is written back.

use vstd::prelude::*;
use crate::components::{Motion, MovingBody, Position};
use crate::geom::{Vec2, POS_LIMIT, TIME_MAX};
use crate::physics::{
    Profile, SMALL, can_handle_entities, can_handle_wall, entities_handled,
    lemma_resolved_stays_valid, resolve_entity_spec, resolve_wall_spec, wall_handled,
};
use crate::state::{CollisionError, Entry, EventKind, IndexState};
use crate::state_laws::{
    lemma_added, lemma_added_settled, lemma_at_time, lemma_caught_up, lemma_entry_at_place,
    lemma_follows, lemma_removed, lemma_removed_settled, lemma_same_place, lemma_with_vel,
};

verus! {

/// Length of one tick, in time units.
pub const TICK: u64 = 1000;

/// The most resolutions that one tick performs. Contacts that are still
/// queued when the limit is reached are dropped for that tick.
pub const CASCADE_LIMIT: usize = 4096;

/// The most ticks that a system counts.
pub const TICKS_MAX: u64 = 1_000_000_000_000_000;

/// The room that a tick needs between every centre and `POS_LIMIT`: the way
/// of the fastest body in one tick, and one push for each resolution.
pub const STEP_ROOM: i64 = 1_000_040_960_000;

/// How far a tick has come: the content of the index, the resolutions that
/// the tick may still perform, the pairs that were skipped because their
/// shapes coincide, and whether a contact was dropped for want of
/// resolutions.
pub struct Run {
    pub index: IndexState,
    pub budget: nat,
    pub degenerate: Seq<(Profile, Profile)>,
    pub overflow: bool,
}

/// The pairs of `p` with each of `others`, in their order.
pub open spec fn paired(p: Profile, others: Seq<Profile>) -> Seq<(Profile, Profile)> {
    others.map_values(|o: Profile| (p, o))
}

/// The contacts that are left to look at after one resolution: the rest of
/// the queue, then the new contacts of each body that moved.
pub open spec fn requeued(
    rest: Seq<(Profile, Profile)>,
    after: IndexState,
    first: Profile,
    second: Option<Profile>,
) -> Seq<(Profile, Profile)> {
    let q = rest + paired(first, after.partners(first.id_spec()));
    match second {
        Some(p) => q + paired(p, after.partners(p.id_spec())),
        None => q,
    }
}

/// Works off a queue of contacts, first in, first out. A pair of walls and a
/// pair that is no longer in contact are passed over. A pair whose shapes
/// coincide is set aside. Every other pair is resolved: against the wall
/// where one of the two is a wall, else between the two. The new contacts of
/// each body that a resolution moved join the end of the queue. Where a pair
/// is to be resolved and the tick has no resolution left, that pair and the
/// rest of the queue are dropped.
pub open spec fn cascade(run: Run, queue: Seq<(Profile, Profile)>) -> Run
    decreases run.budget, queue.len(),
{
    if queue.len() == 0 {
        run
    } else {
        let (p_1, p_2) = queue[0];
        let rest = queue.subrange(1, queue.len() as int);
        let s = run.index;
        if p_1.wall && p_2.wall {
            cascade(run, rest)
        } else if !s.in_contact(p_1.id_spec(), p_2.id_spec()) {
            cascade(run, rest)
        } else if s.entry(p_1.id_spec()).hitbox.value.coincides_spec(
            s.entry(p_2.id_spec()).hitbox.value,
        ) {
            cascade(Run { degenerate: run.degenerate.push((p_1, p_2)), ..run }, rest)
        } else if run.budget == 0 {
            Run { overflow: true, ..run }
        } else if p_1.wall {
            let after = wall_handled(s, p_2, p_1);
            cascade(
                Run { index: after, budget: (run.budget - 1) as nat, ..run },
                requeued(rest, after, p_2, None),
            )
        } else if p_2.wall {
            let after = wall_handled(s, p_1, p_2);
            cascade(
                Run { index: after, budget: (run.budget - 1) as nat, ..run },
                requeued(rest, after, p_1, None),
            )
        } else {
            let after = entities_handled(s, p_1, p_2);
            cascade(
                Run { index: after, budget: (run.budget - 1) as nat, ..run },
                requeued(rest, after, p_1, Some(p_2)),
            )
        }
    }
}

/// The contacts that begin among the first `n` events, in their order,
/// without the pairs of two walls.
pub open spec fn collisions_upto(events: Seq<(EventKind, Profile, Profile)>, n: int) -> Seq<
    (Profile, Profile),
>
    decreases n,
{
    if n <= 0 {
        Seq::empty()
    } else {
        let rest = collisions_upto(events, n - 1);
        let (kind, p_1, p_2) = events[n - 1];
        if kind == EventKind::Begin && !(p_1.wall && p_2.wall) {
            rest.push((p_1, p_2))
        } else {
            rest
        }
    }
}

/// The contacts that begin among the events, without the pairs of two walls.
pub open spec fn collisions(events: Seq<(EventKind, Profile, Profile)>) -> Seq<(Profile, Profile)> {
    collisions_upto(events, events.len() as int)
}

/// Takes every event that is due now from the index and resolves the contacts
/// that begin.
pub open spec fn resolve_now(run: Run) -> Run {
    cascade(
        Run { index: run.index.caught_up(), ..run },
        collisions(run.index.pending_events()),
    )
}

/// The instant at which the clock stops next on its way from `now` to `end`:
/// that of the next event where one is due in between, else `end`.
pub open spec fn stop_after(s: IndexState, now: u64, end: u64) -> u64 {
    match s.next_time_spec() {
        Some(t) => if now < t && t < end {
            t
        } else {
            end
        },
        None => end,
    }
}

/// Resolves what is due at `now`, then moves the clock from stop to stop up
/// to `end`, resolving at each stop what is due there.
pub open spec fn advance(run: Run, now: u64, end: u64) -> Run
    decreases end - now,
{
    let here = resolve_now(run);
    if now >= end {
        here
    } else {
        let t = stop_after(here.index, now, end);
        advance(Run { index: here.index.at_time(t), ..here }, t, end)
    }
}

/// The index after the first `n` bodies have handed in their wanted
/// velocities. A body without motion hands in none.
pub open spec fn synced_upto(s: IndexState, bodies: Seq<MovingBody>, n: int) -> IndexState
    decreases n,
{
    if n <= 0 {
        s
    } else {
        let before = synced_upto(s, bodies, n - 1);
        match bodies[n - 1].motion {
            Some(m) => before.with_vel(bodies[n - 1].id(), m.velocity),
            None => before,
        }
    }
}

/// The index after all bodies have handed in their wanted velocities.
pub open spec fn synced(s: IndexState, bodies: Seq<MovingBody>) -> IndexState {
    synced_upto(s, bodies, bodies.len() as int)
}

/// A body with the position of its hitbox, and with the velocity of its
/// hitbox where the body has a motion.
pub open spec fn written_back(s: IndexState, body: MovingBody) -> MovingBody {
    let hb = s.entry(body.id()).hitbox;
    MovingBody {
        position: Position(hb.value.pos),
        motion: match body.motion {
            Some(_) => Some(Motion { velocity: hb.vel }),
            None => None,
        },
        collider: body.collider,
    }
}

/// Whether every body names a collider that the index follows.
pub open spec fn all_known(s: IndexState, bodies: Seq<MovingBody>) -> bool {
    forall|k: int| 0 <= k < bodies.len() ==> s.contains((#[trigger] bodies[k]).id())
}

/// Whether every wanted velocity is valid.
pub open spec fn all_valid(bodies: Seq<MovingBody>) -> bool {
    forall|k: int| 0 <= k < bodies.len() ==> (#[trigger] bodies[k]).wf()
}

/// Whether two states follow the same identities at the same instant.
pub open spec fn same_bodies(a: IndexState, b: IndexState) -> bool {
    a.time == b.time && forall|x: u64| #[trigger] a.contains(x) == b.contains(x)
}

/// Resolving a body against a wall keeps the state well formed and settled,
/// follows the same identities, and moves no centre but that of the body, and
/// that by `SMALL`.
pub proof fn lemma_wall_handled(s: IndexState, entity: Profile, wall: Profile, bound: int)
    requires
        s.wf(),
        can_handle_wall(s, entity, wall),
    ensures
        wall_handled(s, entity, wall).wf(),
        same_bodies(wall_handled(s, entity, wall), s),
        s.settled() ==> wall_handled(s, entity, wall).settled(),
        s.within(bound) ==> wall_handled(s, entity, wall).within(bound + SMALL),
        forall|x: u64|
            x != entity.id_spec() && s.contains(x) ==> #[trigger] wall_handled(
                s,
                entity,
                wall,
            ).entry(x) == s.entry(x),
{
    let id = entity.id_spec();
    let hb = s.entry(id).hitbox;
    let r = resolve_wall_spec(hb, s.entry(wall.id_spec()).hitbox);
    let s1 = s.removed(id);
    let t = s1.added(entity, r);
    assert(s.bodies[s.position(id)].wf());
    assert(s.bodies[s.position(wall.id_spec())].wf());
    lemma_resolved_stays_valid(
        hb,
        hb.value.normal_card(s.entry(wall.id_spec()).hitbox.value),
        SMALL as int,
        bound,
    );
    lemma_removed(s, id);
    lemma_removed_settled(s, id, bound);
    lemma_removed_settled(s, id, bound + SMALL);
    lemma_added(s1, entity, r);
    lemma_added_settled(s1, entity, r, bound + SMALL);
    if s.within(bound) {
        assert(s.bodies[s.position(id)].hitbox.value.pos.within(bound));
        lemma_within_grows(s1, bound, bound + SMALL);
    }
}

/// Resolving the contact of two bodies keeps the state well formed and
/// settled, follows the same identities, and moves no centre but those of the
/// two, and those by `SMALL`.
pub proof fn lemma_entities_handled(s: IndexState, p_1: Profile, p_2: Profile, bound: int)
    requires
        s.wf(),
        can_handle_entities(s, p_1, p_2),
    ensures
        entities_handled(s, p_1, p_2).wf(),
        same_bodies(entities_handled(s, p_1, p_2), s),
        s.settled() ==> entities_handled(s, p_1, p_2).settled(),
        s.within(bound) ==> entities_handled(s, p_1, p_2).within(bound + SMALL),
        forall|x: u64|
            x != p_1.id_spec() && x != p_2.id_spec() && s.contains(x) ==> #[trigger] entities_handled(
                s,
                p_1,
                p_2,
            ).entry(x) == s.entry(x),
{
    let (id_1, id_2) = (p_1.id_spec(), p_2.id_spec());
    let (hb_1, hb_2) = (s.entry(id_1).hitbox, s.entry(id_2).hitbox);
    let r = resolve_entity_spec(hb_1, hb_2);
    let card = hb_1.value.normal_card(hb_2.value);
    let s1 = s.removed(id_1);
    let s2 = s1.removed(id_2);
    let s3 = s2.added(p_1, r.0);
    let t = s3.added(p_2, r.1);
    assert(s.bodies[s.position(id_1)].wf());
    assert(s.bodies[s.position(id_2)].wf());
    lemma_resolved_stays_valid(hb_1, card, SMALL as int, bound);
    lemma_resolved_stays_valid(hb_2, card, -(SMALL as int), bound);
    lemma_removed(s, id_1);
    lemma_removed_settled(s, id_1, bound);
    lemma_removed(s1, id_2);
    lemma_removed_settled(s1, id_2, bound);
    lemma_added(s2, p_1, r.0);
    lemma_added_settled(s2, p_1, r.0, bound + SMALL);
    lemma_added(s3, p_2, r.1);
    lemma_added_settled(s3, p_2, r.1, bound + SMALL);
    if s.within(bound) {
        assert(s.bodies[s.position(id_1)].hitbox.value.pos.within(bound));
        assert(s.bodies[s.position(id_2)].hitbox.value.pos.within(bound));
        lemma_within_grows(s2, bound, bound + SMALL);
    }
    assert forall|x: u64|
        x != id_1 && x != id_2 && s.contains(x) implies #[trigger] t.entry(x) == s.entry(x) by {
        assert(s1.entry(x) == s.entry(x));
        assert(s1.contains(x));
        assert(s2.entry(x) == s1.entry(x));
        assert(s2.contains(x));
        assert(s3.entry(x) == s2.entry(x));
        assert(s3.contains(x));
        assert(t.entry(x) == s3.entry(x));
    }
}

/// Bodies within a bound are within every larger bound.
pub proof fn lemma_within_grows(s: IndexState, small: int, large: int)
    requires
        s.within(small),
        small <= large,
    ensures
        s.within(large),
{
    assert forall|i: int| 0 <= i < s.bodies.len() implies (
    #[trigger] s.bodies[i]).hitbox.value.pos.within(large) by {
        assert(s.bodies[i].hitbox.value.pos.within(small));
    }
}

/// Whether `t` holds the bodies of `s`, each with the handle and the shape
/// that it has in `s`, and each wall with the hitbox that it has in `s`.
pub open spec fn keeps(s: IndexState, t: IndexState) -> bool {
    &&& forall|x: u64| #[trigger] t.contains(x) == s.contains(x)
    &&& forall|x: u64|
        s.contains(x) ==> {
            &&& (#[trigger] t.entry(x)).profile == s.entry(x).profile
            &&& t.entry(x).hitbox.value.shape == s.entry(x).hitbox.value.shape
            &&& s.entry(x).profile.wall ==> t.entry(x) == s.entry(x)
        }
}

/// Whether both handles of every queued pair are handles of bodies in `s`.
pub open spec fn all_followed(s: IndexState, queue: Seq<(Profile, Profile)>) -> bool {
    forall|k: int|
        0 <= k < queue.len() ==> s.follows((#[trigger] queue[k]).0) && s.follows(queue[k].1)
}

/// A handle of a body stays one where the bodies are kept.
pub proof fn lemma_keeps_follows(s: IndexState, t: IndexState, p: Profile)
    requires
        s.wf(),
        t.wf(),
        keeps(s, t),
        s.follows(p),
    ensures
        t.follows(p),
{
    lemma_follows(s, p);
    let x = p.id_spec();
    assert(t.contains(x));
    assert(t.entry(x).profile == p);
    let i = t.position(x);
    assert(t.bodies[i].profile == p);
}

/// Queued handles stay handles of bodies where the bodies are kept.
pub proof fn lemma_keeps_all_followed(s: IndexState, t: IndexState, queue: Seq<(Profile, Profile)>)
    requires
        s.wf(),
        t.wf(),
        keeps(s, t),
        all_followed(s, queue),
    ensures
        all_followed(t, queue),
{
    assert forall|k: int| 0 <= k < queue.len() implies t.follows((#[trigger] queue[k]).0)
        && t.follows(queue[k].1) by {
        lemma_keeps_follows(s, t, queue[k].0);
        lemma_keeps_follows(s, t, queue[k].1);
    }
}

/// Keeping the bodies is transitive.
pub proof fn lemma_keeps_chain(s: IndexState, t: IndexState, u: IndexState)
    requires
        keeps(s, t),
        keeps(t, u),
    ensures
        keeps(s, u),
{
    assert forall|x: u64| s.contains(x) implies {
        &&& (#[trigger] u.entry(x)).profile == s.entry(x).profile
        &&& u.entry(x).hitbox.value.shape == s.entry(x).hitbox.value.shape
        &&& s.entry(x).profile.wall ==> u.entry(x) == s.entry(x)
    } by {
        assert(t.contains(x));
        assert(t.entry(x).profile == s.entry(x).profile);
    }
    assert forall|x: u64| #[trigger] u.contains(x) == s.contains(x) by {
        assert(t.contains(x) == s.contains(x));
    }
}

/// Resolving a body against a wall keeps the bodies.
pub proof fn lemma_wall_handled_keeps(s: IndexState, entity: Profile, wall: Profile)
    requires
        s.wf(),
        can_handle_wall(s, entity, wall),
        s.follows(entity),
    ensures
        keeps(s, wall_handled(s, entity, wall)),
{
    let id = entity.id_spec();
    let hb = s.entry(id).hitbox;
    let r = resolve_wall_spec(hb, s.entry(wall.id_spec()).hitbox);
    let s1 = s.removed(id);
    let t = s1.added(entity, r);
    assert(s.bodies[s.position(id)].wf());
    assert(s.bodies[s.position(wall.id_spec())].wf());
    lemma_follows(s, entity);
    lemma_wall_handled(s, entity, wall, POS_LIMIT as int);
    lemma_resolved_stays_valid(
        hb,
        hb.value.normal_card(s.entry(wall.id_spec()).hitbox.value),
        SMALL as int,
        POS_LIMIT as int,
    );
    lemma_removed(s, id);
    lemma_added_settled(s1, entity, r, POS_LIMIT as int);
}

/// Resolving the contact of two bodies keeps the bodies.
pub proof fn lemma_entities_handled_keeps(s: IndexState, p_1: Profile, p_2: Profile)
    requires
        s.wf(),
        can_handle_entities(s, p_1, p_2),
        s.follows(p_1),
        s.follows(p_2),
    ensures
        keeps(s, entities_handled(s, p_1, p_2)),
{
    let (id_1, id_2) = (p_1.id_spec(), p_2.id_spec());
    let (hb_1, hb_2) = (s.entry(id_1).hitbox, s.entry(id_2).hitbox);
    let r = resolve_entity_spec(hb_1, hb_2);
    let card = hb_1.value.normal_card(hb_2.value);
    let s1 = s.removed(id_1);
    let s2 = s1.removed(id_2);
    let s3 = s2.added(p_1, r.0);
    let t = s3.added(p_2, r.1);
    assert(s.bodies[s.position(id_1)].wf());
    assert(s.bodies[s.position(id_2)].wf());
    lemma_follows(s, p_1);
    lemma_follows(s, p_2);
    lemma_entities_handled(s, p_1, p_2, POS_LIMIT as int);
    lemma_resolved_stays_valid(hb_1, card, SMALL as int, POS_LIMIT as int);
    lemma_resolved_stays_valid(hb_2, card, -(SMALL as int), POS_LIMIT as int);
    lemma_removed(s, id_1);
    lemma_removed(s1, id_2);
    lemma_added(s2, p_1, r.0);
    lemma_added_settled(s2, p_1, r.0, POS_LIMIT as int);
    lemma_added(s3, p_2, r.1);
    lemma_added_settled(s3, p_2, r.1, POS_LIMIT as int);
    assert(t.entry(id_2) == Entry { profile: p_2, hitbox: r.1 });
    assert(s3.entry(id_1) == Entry { profile: p_1, hitbox: r.0 });
    assert(t.entry(id_1) == s3.entry(id_1));
}

/// Handing out the events that are due keeps the bodies as they are.
pub proof fn lemma_caught_up_keeps(s: IndexState)
    requires
        s.wf(),
    ensures
        keeps(s, s.caught_up()),
        forall|p: Profile| s.follows(p) ==> #[trigger] s.caught_up().follows(p),
{
    let t = s.caught_up();
    lemma_caught_up(s);
    assert(t.bodies == s.bodies);
    assert forall|x: u64| #[trigger] t.contains(x) == s.contains(x) by {
        if t.contains(x) {
            let k = choose|k: int| 0 <= k < t.bodies.len() && #[trigger] t.bodies[k].id() == x;
            assert(s.bodies[k].id() == x);
        }
        if s.contains(x) {
            let k = choose|k: int| 0 <= k < s.bodies.len() && #[trigger] s.bodies[k].id() == x;
            assert(t.bodies[k].id() == x);
        }
    }
    assert forall|x: u64| s.contains(x) implies #[trigger] t.entry(x) == s.entry(x) by {
        let i = s.position(x);
        assert(s.bodies[i].id() == x);
        lemma_entry_at_place(t, i);
    }
    assert forall|p: Profile| s.follows(p) implies #[trigger] t.follows(p) by {
        let i = choose|i: int| 0 <= i < s.bodies.len() && (#[trigger] s.bodies[i]).profile == p;
        assert(t.bodies[i].profile == p);
    }
}

/// Moving the clock keeps the bodies: a wall does not move.
pub proof fn lemma_at_time_keeps(s: IndexState, time: u64)
    requires
        s.wf(),
        time > s.time ==> time <= TIME_MAX && s.fits_after(time - s.time),
    ensures
        keeps(s, s.at_time(time)),
{
    let t = s.at_time(time);
    lemma_at_time(s, time);
    if time > s.time {
        assert forall|x: u64| s.contains(x) implies {
            &&& (#[trigger] t.entry(x)).profile == s.entry(x).profile
            &&& t.entry(x).hitbox.value.shape == s.entry(x).hitbox.value.shape
            &&& s.entry(x).profile.wall ==> t.entry(x) == s.entry(x)
        } by {
            let i = s.position(x);
            assert(s.bodies[i].id() == x);
            assert(s.bodies[i].wf());
            assert(t.bodies[i].id() == x);
            lemma_entry_at_place(t, i);
            if s.bodies[i].profile.wall {
                let dt = time - s.time;
                assert(0 * dt == 0);
                assert(t.bodies[i].hitbox.value.pos == s.bodies[i].hitbox.value.pos);
            }
        }
    }
}

/// Giving a body a velocity keeps the bodies: a wall keeps its own.
pub proof fn lemma_with_vel_keeps(s: IndexState, id: u64, vel: Vec2)
    requires
        s.wf(),
        s.contains(id),
        vel.is_velocity(),
    ensures
        keeps(s, s.with_vel(id, vel)),
{
    let t = s.with_vel(id, vel);
    lemma_with_vel(s, id, vel);
    assert forall|x: u64| s.contains(x) implies {
        &&& (#[trigger] t.entry(x)).profile == s.entry(x).profile
        &&& t.entry(x).hitbox.value.shape == s.entry(x).hitbox.value.shape
        &&& s.entry(x).profile.wall ==> t.entry(x) == s.entry(x)
    } by {
        let i = s.position(x);
        assert(s.bodies[i].id() == x);
        assert(t.bodies[i].id() == x);
        lemma_entry_at_place(t, i);
        lemma_same_place(s, i, s.position(id));
    }
}

/// What is left of a tick once the contacts due at `now` are resolved: done
/// at `end`, else on to the next stop.
pub open spec fn rest_of_tick(here: Run, now: u64, end: u64) -> Run {
    if now >= end {
        here
    } else {
        let t = stop_after(here.index, now, end);
        advance(Run { index: here.index.at_time(t), ..here }, t, end)
    }
}

/// The conditions that a tick met: one `DegenerateNormal` for each pair that
/// was skipped, then one `CascadeOverflow` where contacts were dropped.
pub open spec fn conditions_of(degenerate: Seq<(Profile, Profile)>, overflow: bool) -> Seq<
    CollisionError,
> {
    let skipped = degenerate.map_values(|p: (Profile, Profile)| CollisionError::DegenerateNormal);
    if overflow {
        skipped.push(CollisionError::CascadeOverflow)
    } else {
        skipped
    }
}

} // verus!
