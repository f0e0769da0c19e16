//! Laws of the content of a spatial index: what adding and removing a body,
//! setting a velocity, handing out events and moving the clock keep and
//! change.

use vstd::prelude::*;
use vstd::assert_by_contradiction;
use crate::geom::{Hitbox, Vec2, POS_LIMIT, VEL_MAX, TIME_MAX};
use crate::physics::Profile;
use crate::state::{key, Entry, IndexState};
use crate::sweep::{lemma_overlap_foreseen, lemma_overlaps_now, overlaps_after};

verus! {

/// Adding a body under a fresh identity keeps the state well formed. The new
/// body is in contact with exactly the bodies that its hitbox overlaps, and
/// the contacts among the others stay as they were.
pub proof fn lemma_added(s: IndexState, profile: Profile, hitbox: Hitbox)
    requires
        s.wf(),
        (Entry { profile, hitbox }).wf(),
        !s.contains(profile.id_spec()),
    ensures
        s.added(profile, hitbox).wf(),
        forall|k: int|
            0 <= k < s.bodies.len() ==> (s.added(profile, hitbox).in_contact(
                profile.id_spec(),
                (#[trigger] s.bodies[k]).id(),
            ) <==> hitbox.value.overlaps_spec(s.bodies[k].hitbox.value)),
        !s.added(profile, hitbox).in_contact(profile.id_spec(), profile.id_spec()),
        forall|a: u64, b: u64|
            a != profile.id_spec() && b != profile.id_spec() ==> (#[trigger] s.added(
                profile,
                hitbox,
            ).in_contact(a, b) == s.in_contact(a, b)),
        forall|x: u64| #[trigger]
            s.added(profile, hitbox).contains(x) <==> (s.contains(x) || x == profile.id_spec()),
{
    let id = profile.id_spec();
    let t = s.added(profile, hitbox);
    let n = s.bodies.len() as int;
    assert forall|x: u64| #[trigger] t.contains(x) <==> (s.contains(x) || x == id) by {
        if t.contains(x) {
            let i = choose|i: int| 0 <= i < t.bodies.len() && #[trigger] t.bodies[i].id() == x;
            if i < n {
                assert(s.bodies[i].id() == x);
            }
        }
        if s.contains(x) {
            let i = choose|i: int| 0 <= i < s.bodies.len() && #[trigger] s.bodies[i].id() == x;
            assert(t.bodies[i].id() == x);
        }
        if x == id {
            assert(t.bodies[n].id() == x);
        }
    }
    assert forall|i: int, j: int| 0 <= i < j < t.bodies.len() implies (#[trigger] t.bodies[i]).id()
        != (#[trigger] t.bodies[j]).id() by {
        if j == n {
            assert(s.bodies[i].id() != id);
        } else {
            assert(s.bodies[i].id() != s.bodies[j].id());
        }
    }
    assert forall|p: (u64, u64)| #[trigger] t.contacts.contains(p) implies p.0 < p.1 && t.contains(
        p.0,
    ) && t.contains(p.1) by {
        if !s.contacts.contains(p) {
            let k = choose|k: int|
                0 <= k < s.bodies.len() && p == key(id, (#[trigger] s.bodies[k]).id())
                    && hitbox.value.overlaps_spec(s.bodies[k].hitbox.value);
            assert(s.bodies[k].id() != id);
            assert(s.contains(s.bodies[k].id()));
        }
    }
    assert forall|k: int| 0 <= k < s.bodies.len() implies (t.in_contact(
        id,
        (#[trigger] s.bodies[k]).id(),
    ) <==> hitbox.value.overlaps_spec(s.bodies[k].hitbox.value)) by {
        let p = key(id, s.bodies[k].id());
        assert(s.bodies[k].id() != id);
        if t.contacts.contains(p) {
            if s.contacts.contains(p) {
                assert(s.contains(id));
            } else {
                let m = choose|m: int|
                    0 <= m < s.bodies.len() && p == key(id, (#[trigger] s.bodies[m]).id())
                        && hitbox.value.overlaps_spec(s.bodies[m].hitbox.value);
                assert(s.bodies[m].id() != id);
                if m < k {
                    assert(s.bodies[m].id() != s.bodies[k].id());
                } else if k < m {
                    assert(s.bodies[k].id() != s.bodies[m].id());
                }
            }
        }
    }
    assert(!t.in_contact(id, id)) by {
        let p = key(id, id);
        if s.arrival_contacts(id, hitbox).contains(p) {
            let m = choose|m: int|
                0 <= m < s.bodies.len() && p == key(id, (#[trigger] s.bodies[m]).id())
                    && hitbox.value.overlaps_spec(s.bodies[m].hitbox.value);
            assert(s.bodies[m].id() != id);
        }
    }
    assert forall|a: u64, b: u64| a != id && b != id implies (#[trigger] t.in_contact(a, b)
        == s.in_contact(a, b)) by {
        let p = key(a, b);
        if s.arrival_contacts(id, hitbox).contains(p) {
            let m = choose|m: int|
                0 <= m < s.bodies.len() && p == key(id, (#[trigger] s.bodies[m]).id())
                    && hitbox.value.overlaps_spec(s.bodies[m].hitbox.value);
        }
    }
}

/// Removing a body keeps the state well formed. The others stay, in their
/// order and with their contacts among themselves.
pub proof fn lemma_removed(s: IndexState, id: u64)
    requires
        s.wf(),
        s.contains(id),
    ensures
        s.removed(id).wf(),
        !s.removed(id).contains(id),
        forall|x: u64| x != id ==> (#[trigger] s.removed(id).contains(x) <==> s.contains(x)),
        forall|a: u64, b: u64|
            a != id && b != id ==> (#[trigger] s.removed(id).in_contact(a, b) == s.in_contact(
                a,
                b,
            )),
        forall|a: u64| !(#[trigger] s.removed(id).in_contact(a, id)) && !s.removed(id).in_contact(id, a),
{
    let t = s.removed(id);
    let i = s.position(id);
    assert(s.bodies[i].id() == id);
    assert forall|k: int| 0 <= k < t.bodies.len() implies #[trigger] t.bodies[k] == s.bodies[if k
        < i {
        k
    } else {
        k + 1
    }] by {}
    assert forall|x: u64| #[trigger] t.contains(x) implies s.contains(x) && x != id by {
        let k = choose|k: int| 0 <= k < t.bodies.len() && #[trigger] t.bodies[k].id() == x;
        let m = if k < i {
            k
        } else {
            k + 1
        };
        assert(s.bodies[m].id() == x);
        if m < i {
            assert(s.bodies[m].id() != s.bodies[i].id());
        } else {
            assert(s.bodies[i].id() != s.bodies[m].id());
        }
    }
    assert forall|x: u64| x != id && s.contains(x) implies #[trigger] t.contains(x) by {
        let m = choose|m: int| 0 <= m < s.bodies.len() && #[trigger] s.bodies[m].id() == x;
        let k = if m < i {
            m
        } else {
            m - 1
        };
        assert(t.bodies[k].id() == x);
    }
    assert forall|a: int, b: int| 0 <= a < b < t.bodies.len() implies (#[trigger] t.bodies[a]).id()
        != (#[trigger] t.bodies[b]).id() by {
        let ma = if a < i {
            a
        } else {
            a + 1
        };
        let mb = if b < i {
            b
        } else {
            b + 1
        };
        assert(s.bodies[ma].id() != s.bodies[mb].id());
    }
    assert forall|k: int| 0 <= k < t.bodies.len() implies (#[trigger] t.bodies[k]).wf() by {
        let m = if k < i {
            k
        } else {
            k + 1
        };
        assert(s.bodies[m].wf());
    }
}

/// Giving a body a valid velocity keeps the state well formed, and changes
/// neither the identities nor the contacts nor any placed shape.
pub proof fn lemma_with_vel(s: IndexState, id: u64, vel: Vec2)
    requires
        s.wf(),
        s.contains(id),
        vel.is_velocity(),
    ensures
        s.with_vel(id, vel).wf(),
        s.with_vel(id, vel).bodies.len() == s.bodies.len(),
        s.with_vel(id, vel).contacts == s.contacts,
        s.with_vel(id, vel).time == s.time,
        forall|k: int|
            0 <= k < s.bodies.len() ==> (#[trigger] s.with_vel(id, vel).bodies[k]).profile
                == s.bodies[k].profile && s.with_vel(id, vel).bodies[k].hitbox.value
                == s.bodies[k].hitbox.value,
        forall|x: u64| #[trigger] s.with_vel(id, vel).contains(x) <==> s.contains(x),
{
    let t = s.with_vel(id, vel);
    let i = s.position(id);
    assert(s.bodies[i].id() == id);
    assert forall|k: int| 0 <= k < s.bodies.len() implies (#[trigger] t.bodies[k]).profile
        == s.bodies[k].profile && t.bodies[k].hitbox.value == s.bodies[k].hitbox.value
        && t.bodies[k].wf() by {
        assert(s.bodies[k].wf());
    }
    assert forall|x: u64| #[trigger] t.contains(x) <==> s.contains(x) by {
        if t.contains(x) {
            let k = choose|k: int| 0 <= k < t.bodies.len() && #[trigger] t.bodies[k].id() == x;
            assert(s.bodies[k].id() == x);
        }
        if s.contains(x) {
            let k = choose|k: int| 0 <= k < s.bodies.len() && #[trigger] s.bodies[k].id() == x;
            assert(t.bodies[k].id() == x);
        }
    }
    assert forall|a: int, b: int| 0 <= a < b < t.bodies.len() implies (#[trigger] t.bodies[a]).id()
        != (#[trigger] t.bodies[b]).id() by {
        assert(s.bodies[a].id() != s.bodies[b].id());
    }
}

/// At most one instant is that of the next event.
pub proof fn lemma_next_change_unique(s: IndexState, a: int, b: int)
    requires
        s.is_next_change(a),
        s.is_next_change(b),
    ensures
        a == b,
{
    if a < b {
        assert(!s.changes_after(a));
    } else if b < a {
        assert(!s.changes_after(b));
    }
}

/// Once every event due now was handed out, the state is well formed and
/// settled, with the same bodies at the same instant, and two bodies are in
/// contact exactly when they overlap.
pub proof fn lemma_caught_up(s: IndexState)
    requires
        s.wf(),
    ensures
        s.caught_up().wf(),
        s.caught_up().settled(),
        forall|i: int, j: int|
            0 <= i < j < s.bodies.len() ==> #[trigger] s.caught_up().in_contact(
                s.bodies[i].id(),
                s.bodies[j].id(),
            ) == overlaps_after(s.bodies[i].hitbox, s.bodies[j].hitbox, 0),
{
    let t = s.caught_up();
    assert forall|x: u64| #[trigger] t.contains(x) == s.contains(x) by {
        if t.contains(x) {
            let k = choose|k: int| 0 <= k < t.bodies.len() && #[trigger] t.bodies[k].id() == x;
            assert(s.bodies[k].id() == x);
        }
        if s.contains(x) {
            let k = choose|k: int| 0 <= k < s.bodies.len() && #[trigger] s.bodies[k].id() == x;
            assert(t.bodies[k].id() == x);
        }
    }
    assert forall|p: (u64, u64)| #[trigger] t.contacts.contains(p) implies p.0 < p.1 && t.contains(
        p.0,
    ) && t.contains(p.1) by {
        let (a, b) = choose|a: int, b: int|
            0 <= a < b < s.bodies.len() && p == #[trigger] key(s.bodies[a].id(), s.bodies[b].id())
                && overlaps_after(s.bodies[a].hitbox, s.bodies[b].hitbox, 0);
        assert(s.bodies[a].id() != s.bodies[b].id());
        assert(s.contains(s.bodies[a].id()));
        assert(s.contains(s.bodies[b].id()));
    }
    assert forall|i: int, j: int| 0 <= i < j < s.bodies.len() implies #[trigger] t.in_contact(
        s.bodies[i].id(),
        s.bodies[j].id(),
    ) == overlaps_after(s.bodies[i].hitbox, s.bodies[j].hitbox, 0) by {
        let p = key(s.bodies[i].id(), s.bodies[j].id());
        if t.contacts.contains(p) {
            let (a, b) = choose|a: int, b: int|
                0 <= a < b < s.bodies.len() && p == #[trigger] key(
                    s.bodies[a].id(),
                    s.bodies[b].id(),
                ) && overlaps_after(s.bodies[a].hitbox, s.bodies[b].hitbox, 0);
            assert(s.bodies[i].id() != s.bodies[j].id());
            assert(s.bodies[a].id() != s.bodies[b].id());
            lemma_same_place(s, a, i);
            lemma_same_place(s, a, j);
            lemma_same_place(s, b, i);
            lemma_same_place(s, b, j);
        }
    }
    assert(!t.changes_after(0)) by {
        if t.changes_after(0) {
            let (i, j) = choose|i: int, j: int|
                0 <= i < j < t.bodies.len() && #[trigger] t.pair_changes(i, j, 0);
            assert(t.in_contact(s.bodies[i].id(), s.bodies[j].id()) == overlaps_after(
                s.bodies[i].hitbox,
                s.bodies[j].hitbox,
                0,
            ));
        }
    }
}

/// In a well-formed state two places with one identity are one place.
pub proof fn lemma_same_place(s: IndexState, a: int, b: int)
    requires
        s.wf(),
        0 <= a < s.bodies.len(),
        0 <= b < s.bodies.len(),
    ensures
        s.bodies[a].id() == s.bodies[b].id() ==> a == b,
{
    if a < b {
        assert(s.bodies[a].id() != s.bodies[b].id());
    } else if b < a {
        assert(s.bodies[b].id() != s.bodies[a].id());
    }
}

/// Moving the clock keeps the state well formed where every body stays in
/// range. It changes no handle, shape, velocity or contact, and the clock
/// never decreases.
pub proof fn lemma_at_time(s: IndexState, time: u64)
    requires
        s.wf(),
        time > s.time ==> time <= TIME_MAX && s.fits_after(time - s.time),
    ensures
        s.at_time(time).wf(),
        s.at_time(time).time >= s.time,
        s.at_time(time).time == if time <= s.time {
            s.time
        } else {
            time
        },
        s.at_time(time).bodies.len() == s.bodies.len(),
        s.at_time(time).contacts == s.contacts,
        forall|k: int|
            0 <= k < s.bodies.len() ==> (#[trigger] s.at_time(time).bodies[k]).profile
                == s.bodies[k].profile && s.at_time(time).bodies[k].hitbox.vel
                == s.bodies[k].hitbox.vel && s.at_time(time).bodies[k].hitbox.value.shape
                == s.bodies[k].hitbox.value.shape,
        forall|x: u64| #[trigger] s.at_time(time).contains(x) == s.contains(x),
{
    let t = s.at_time(time);
    if time > s.time {
        assert forall|k: int| 0 <= k < s.bodies.len() implies (#[trigger] t.bodies[k]).profile
            == s.bodies[k].profile && t.bodies[k].hitbox.vel == s.bodies[k].hitbox.vel
            && t.bodies[k].hitbox.value.shape == s.bodies[k].hitbox.value.shape
            && t.bodies[k].wf() by {
            assert(s.bodies[k].wf());
        }
        assert forall|x: u64| #[trigger] t.contains(x) == s.contains(x) by {
            if t.contains(x) {
                let k = choose|k: int| 0 <= k < t.bodies.len() && #[trigger] t.bodies[k].id() == x;
                assert(s.bodies[k].id() == x);
            }
            if s.contains(x) {
                let k = choose|k: int| 0 <= k < s.bodies.len() && #[trigger] s.bodies[k].id() == x;
                assert(t.bodies[k].id() == x);
            }
        }
        assert forall|a: int, b: int| 0 <= a < b < t.bodies.len() implies (
        #[trigger] t.bodies[a]).id() != (#[trigger] t.bodies[b]).id() by {
            assert(s.bodies[a].id() != s.bodies[b].id());
        }
    }
}

/// Removing a body leaves a settled state settled, and leaves the others
/// where they are.
pub proof fn lemma_removed_settled(s: IndexState, id: u64, bound: int)
    requires
        s.wf(),
        s.contains(id),
    ensures
        s.settled() ==> s.removed(id).settled(),
        s.within(bound) ==> s.removed(id).within(bound),
        s.removed(id).time == s.time,
        forall|x: u64|
            x != id && s.contains(x) ==> #[trigger] s.removed(id).entry(x) == s.entry(x),
{
    let t = s.removed(id);
    let i = s.position(id);
    lemma_removed(s, id);
    assert(s.bodies[i].id() == id);
    assert forall|k: int| 0 <= k < t.bodies.len() implies #[trigger] t.bodies[k] == s.bodies[if k
        < i {
        k
    } else {
        k + 1
    }] by {}
    if s.settled() {
        assert_by_contradiction!(t.settled(), {
            let (a, b) = choose|a: int, b: int|
                0 <= a < b < t.bodies.len() && #[trigger] t.pair_changes(a, b, 0);
            let ma = if a < i {
                a
            } else {
                a + 1
            };
            let mb = if b < i {
                b
            } else {
                b + 1
            };
            lemma_same_place(s, ma, i);
            lemma_same_place(s, mb, i);
            assert(t.in_contact(s.bodies[ma].id(), s.bodies[mb].id()) == s.in_contact(
                s.bodies[ma].id(),
                s.bodies[mb].id(),
            ));
            assert(s.pair_changes(ma, mb, 0));
        });
    }
    if s.within(bound) {
        assert forall|k: int| 0 <= k < t.bodies.len() implies (
        #[trigger] t.bodies[k]).hitbox.value.pos.within(bound) by {
            let m = if k < i {
                k
            } else {
                k + 1
            };
            assert(s.bodies[m].hitbox.value.pos.within(bound));
        }
    }
    assert forall|x: u64| x != id && s.contains(x) implies #[trigger] t.entry(x) == s.entry(
        x,
    ) by {
        let m = s.position(x);
        assert(s.bodies[m].id() == x);
        let k = if m < i {
            m
        } else {
            m - 1
        };
        assert(t.bodies[k] == s.bodies[m]);
        assert(t.contains(x));
        let k2 = t.position(x);
        assert(t.bodies[k2].id() == x);
        lemma_same_place(t, k, k2);
    }
}

/// Adding a body under a fresh identity leaves a settled state settled, and
/// leaves the others where they are.
pub proof fn lemma_added_settled(s: IndexState, profile: Profile, hitbox: Hitbox, bound: int)
    requires
        s.wf(),
        (Entry { profile, hitbox }).wf(),
        !s.contains(profile.id_spec()),
    ensures
        s.settled() ==> s.added(profile, hitbox).settled(),
        s.within(bound) && hitbox.value.pos.within(bound) ==> s.added(profile, hitbox).within(
            bound,
        ),
        s.added(profile, hitbox).time == s.time,
        s.added(profile, hitbox).entry(profile.id_spec()) == (Entry { profile, hitbox }),
        forall|x: u64| s.contains(x) ==> #[trigger] s.added(profile, hitbox).entry(x) == s.entry(x),
{
    let id = profile.id_spec();
    let t = s.added(profile, hitbox);
    let n = s.bodies.len() as int;
    lemma_added(s, profile, hitbox);
    if s.settled() {
        assert_by_contradiction!(t.settled(), {
            let (a, b) = choose|a: int, b: int|
                0 <= a < b < t.bodies.len() && #[trigger] t.pair_changes(a, b, 0);
            if b < n {
                assert(s.bodies[a].id() != id);
                assert(s.bodies[b].id() != id);
                assert(t.in_contact(s.bodies[a].id(), s.bodies[b].id()) == s.in_contact(
                    s.bodies[a].id(),
                    s.bodies[b].id(),
                ));
                assert(s.pair_changes(a, b, 0));
            } else {
                assert(t.bodies[b] == Entry { profile, hitbox });
                lemma_overlaps_now(s.bodies[a].hitbox, hitbox);
                lemma_overlaps_now(hitbox, s.bodies[a].hitbox);
                assert(key(id, s.bodies[a].id()) == key(s.bodies[a].id(), id));
                assert(t.in_contact(id, s.bodies[a].id()) <==> hitbox.value.overlaps_spec(
                    s.bodies[a].hitbox.value,
                ));
            }
        });
    }
    if s.within(bound) && hitbox.value.pos.within(bound) {
        assert forall|k: int| 0 <= k < t.bodies.len() implies (
        #[trigger] t.bodies[k]).hitbox.value.pos.within(bound) by {
            if k < n {
                assert(s.bodies[k].hitbox.value.pos.within(bound));
            }
        }
    }
    assert(t.bodies[n].id() == id);
    assert(t.contains(id));
    lemma_same_place(t, n, t.position(id));
    assert forall|x: u64| s.contains(x) implies #[trigger] t.entry(x) == s.entry(x) by {
        let m = s.position(x);
        assert(s.bodies[m].id() == x);
        assert(t.bodies[m] == s.bodies[m]);
        assert(t.contains(x));
        lemma_same_place(t, m, t.position(x));
    }
}

/// Bodies that lie within `bound` stay within `bound + VEL_MAX * dt` while
/// the clock moves on by `dt`.
pub proof fn lemma_at_time_within(s: IndexState, time: u64, bound: int)
    requires
        s.wf(),
        s.time <= time <= TIME_MAX,
        s.within(bound),
        0 <= bound,
        bound + VEL_MAX * (time - s.time) <= POS_LIMIT,
    ensures
        s.fits_after(time - s.time),
        s.at_time(time).within(bound + VEL_MAX * (time - s.time)),
{
    let dt = time - s.time;
    assert forall|k: int| 0 <= k < s.bodies.len() implies {
        let hb = (#[trigger] s.bodies[k]).hitbox;
        &&& -(VEL_MAX * dt) <= hb.vel.x * dt <= VEL_MAX * dt
        &&& -(VEL_MAX * dt) <= hb.vel.y * dt <= VEL_MAX * dt
    } by {
        let hb = s.bodies[k].hitbox;
        assert(s.bodies[k].wf());
        let (vx, vy) = (hb.vel.x as int, hb.vel.y as int);
        let vm = VEL_MAX as int;
        assert(-(vm * dt) <= vx * dt <= vm * dt && -(vm * dt) <= vy * dt <= vm * dt)
            by (nonlinear_arith)
            requires
                -vm <= vx <= vm,
                -vm <= vy <= vm,
                0 <= dt,
        ;
    }
    assert(s.fits_after(dt)) by {
        assert forall|k: int| 0 <= k < s.bodies.len() implies (
        #[trigger] s.bodies[k]).hitbox.stays_in_range(dt) by {
            assert(s.bodies[k].hitbox.value.pos.within(bound));
        }
    }
    if time > s.time {
        let t = s.at_time(time);
        assert forall|k: int| 0 <= k < t.bodies.len() implies (
        #[trigger] t.bodies[k]).hitbox.value.pos.within(bound + VEL_MAX * dt) by {
            assert(s.bodies[k].hitbox.value.pos.within(bound));
            assert(t.bodies[k].hitbox == s.bodies[k].hitbox.advanced(dt));
        }
    } else {
        assert(dt == 0);
        assert forall|k: int| 0 <= k < s.bodies.len() implies (
        #[trigger] s.bodies[k]).hitbox.value.pos.within(bound + VEL_MAX * dt) by {
            assert(s.bodies[k].hitbox.value.pos.within(bound));
        }
    }
}

/// The clock never runs backward. Setting it to `t_1` and then to `t_2`
/// leaves it at the latest of the three instants; and an instant that is not
/// later than the clock changes nothing at all.
pub proof fn lemma_clock_never_runs_back(s: IndexState, t_1: u64, t_2: u64)
    ensures
        s.at_time(t_1).time >= s.time,
        s.at_time(t_1).at_time(t_2).time >= s.at_time(t_1).time,
        t_2 > t_1 ==> s.at_time(t_1).at_time(t_2).time == if t_2 > s.time {
            t_2
        } else {
            s.time
        },
        t_2 <= s.at_time(t_1).time ==> s.at_time(t_1).at_time(t_2) == s.at_time(t_1),
{
}

/// In a well-formed state the body at a place is the entry of its identity.
pub proof fn lemma_entry_at_place(s: IndexState, i: int)
    requires
        s.wf(),
        0 <= i < s.bodies.len(),
    ensures
        s.contains(s.bodies[i].id()),
        s.position(s.bodies[i].id()) == i,
        s.entry(s.bodies[i].id()) == s.bodies[i],
        s.follows(s.bodies[i].profile),
{
    let id = s.bodies[i].id();
    assert(s.bodies[i].id() == id);
    lemma_same_place(s, i, s.position(id));
}

/// The handle of a body in a well-formed state names that body.
pub proof fn lemma_follows(s: IndexState, p: Profile)
    requires
        s.wf(),
        s.follows(p),
    ensures
        s.contains(p.id_spec()),
        s.entry(p.id_spec()).profile == p,
{
    let i = choose|i: int| 0 <= i < s.bodies.len() && (#[trigger] s.bodies[i]).profile == p;
    lemma_entry_at_place(s, i);
}

/// Moving the clock changes nothing of what is foreseen: where the clock
/// moves on by `dt` without passing an event, the event that was due after
/// `dt + s` is due after `s`, and the instant of the next event is the same
/// as before.
pub proof fn lemma_clock_keeps_the_next_event(s: IndexState, time: u64)
    requires
        s.wf(),
        s.time < time,
        s.can_reach(time),
    ensures
        forall|d: int| #[trigger] s.at_time(time).changes_after(d) == s.changes_after(time - s.time + d),
        s.at_time(time).next_time_spec() == s.next_time_spec(),
{
    let t = s.at_time(time);
    let dt = time - s.time;
    lemma_at_time(s, time);
    assert forall|i: int, j: int, d: int|
        0 <= i < j < s.bodies.len() implies #[trigger] t.pair_changes(i, j, d) == s.pair_changes(
        i,
        j,
        dt + d,
    ) by {
        assert(s.bodies[i].hitbox.stays_in_range(dt));
        assert(s.bodies[j].hitbox.stays_in_range(dt));
        lemma_overlap_foreseen(s.bodies[i].hitbox, s.bodies[j].hitbox, dt, d);
        assert(t.bodies[i].id() == s.bodies[i].id());
        assert(t.bodies[j].id() == s.bodies[j].id());
    }
    assert forall|d: int| #[trigger] t.changes_after(d) == s.changes_after(dt + d) by {
        if t.changes_after(d) {
            let (i, j) = choose|i: int, j: int|
                0 <= i < j < t.bodies.len() && #[trigger] t.pair_changes(i, j, d);
            assert(s.pair_changes(i, j, dt + d));
        }
        if s.changes_after(dt + d) {
            let (i, j) = choose|i: int, j: int|
                0 <= i < j < s.bodies.len() && #[trigger] s.pair_changes(i, j, dt + d);
            assert(t.pair_changes(i, j, d));
        }
    }
    assert forall|d: int| #[trigger] t.is_next_change(d) == s.is_next_change(dt + d) by {
        if t.is_next_change(d) {
            assert forall|u: int| 0 <= u < dt + d implies !#[trigger] s.changes_after(u) by {
                if u >= dt {
                    assert(!t.changes_after(u - dt));
                }
            }
        }
        if s.is_next_change(dt + d) {
            if d < 0 {
                assert(!s.changes_after(dt + d));
            }
            assert forall|u: int| 0 <= u < d implies !#[trigger] t.changes_after(u) by {
                assert(!s.changes_after(dt + u));
            }
        }
    }
    if exists|d: int| s.is_next_change(d) {
        let d = choose|d: int| s.is_next_change(d);
        assert(d >= dt) by {
            if d < dt {
                assert(!s.changes_after(d));
            }
        }
        assert(t.is_next_change(d - dt));
        let e = choose|e: int| t.is_next_change(e);
        lemma_next_change_unique(t, e, d - dt);
    } else {
        assert forall|d: int| !t.is_next_change(d) by {
            assert(!s.is_next_change(dt + d));
        }
    }
}

} // verus!
