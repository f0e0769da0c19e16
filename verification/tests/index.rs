use arena_physics::geom::{v2, Hitbox, Shape, POS_LIMIT, TIME_MAX};
use arena_physics::index::SpatialIndex;
use arena_physics::state::{CollisionError, Entry, EventKind};
use arena_physics::physics::{
    add_box_collider, handle_entity_collision, handle_wall_collision, Profile, SMALL,
};

fn body(id: u32) -> Profile {
    Profile { id, wall: false }
}

fn wall(id: u32) -> Profile {
    Profile { id, wall: true }
}

fn square(width: i64, x: i64, y: i64) -> Hitbox {
    Shape::square(width).place(v2(x, y)).still()
}

#[test]
fn a_new_index_is_empty_at_time_zero() {
    let index = SpatialIndex::new();
    assert_eq!(index.time(), 0);
    assert_eq!(index.len(), 0);
    assert!(!index.contains(0));
    assert_eq!(index.next_time(), None);
    assert_eq!(index.get_hitbox(0), Err(CollisionError::UnknownBodyId));
    assert!(index.get_overlaps(0).is_empty());
    assert!(!index.is_overlapping(0, 1));
}

#[test]
fn registering_twice_is_refused_and_changes_nothing() {
    let mut index = SpatialIndex::new();
    let first = square(10, 0, 0);
    assert_eq!(index.add_hitbox(body(7), first), Ok(vec![]));
    let second = square(20, 3, 3);
    assert_eq!(index.add_hitbox(body(7), second), Err(CollisionError::DuplicateBodyId));
    assert_eq!(index.add_hitbox(wall(7), second), Err(CollisionError::DuplicateBodyId));
    // The body that was there first still answers, unchanged.
    assert_eq!(index.len(), 1);
    assert_eq!(index.get_hitbox(7), Ok(first));
    assert_eq!(index.entry_at(0), Entry { profile: body(7), hitbox: first });
    assert!(index.get_overlaps(7).is_empty());
    assert_eq!(index.time(), 0);
}

#[test]
fn add_box_collider_gives_the_collider_or_refuses() {
    let mut index = SpatialIndex::new();
    let hb = square(10, 0, 0);
    let collider = add_box_collider(3, hb, false, &mut index).unwrap();
    assert_eq!(collider.0, 3);
    assert_eq!(index.entry_at(0), Entry { profile: body(3), hitbox: hb });
    assert_eq!(
        add_box_collider(3, square(5, 100, 100), true, &mut index),
        Err(CollisionError::DuplicateBodyId)
    );
    assert_eq!(index.len(), 1);
    assert_eq!(index.get_hitbox(3), Ok(hb));
}

#[test]
fn a_body_is_in_contact_on_arrival_with_what_it_overlaps() {
    let mut index = SpatialIndex::new();
    assert_eq!(index.add_hitbox(wall(1), square(10, 0, 0)), Ok(vec![]));
    assert_eq!(index.add_hitbox(wall(2), square(10, 40, 0)), Ok(vec![]));
    // Touches the first wall, overlaps neither.
    assert_eq!(index.add_hitbox(body(3), square(10, 10, 0)), Ok(vec![]));
    // Overlaps the first wall and the body, not the second wall.
    assert_eq!(index.add_hitbox(body(4), square(10, 6, 2)), Ok(vec![wall(1), body(3)]));
    assert!(index.is_overlapping(4, 1));
    assert!(index.is_overlapping(1, 4));
    assert!(index.is_overlapping(3, 4));
    assert!(!index.is_overlapping(4, 2));
    assert!(!index.is_overlapping(1, 3));
    assert!(!index.is_overlapping(4, 4));
    assert_eq!(index.get_overlaps(4), vec![wall(1), body(3)]);
    assert_eq!(index.get_overlaps(1), vec![body(4)]);
    assert_eq!(index.get_overlaps(3), vec![body(4)]);
    assert!(index.get_overlaps(2).is_empty());
    // No event is due: the contacts are what the geometry shows.
    assert_eq!(index.next_time(), None);
    assert!(index.next().is_empty());
}

#[test]
fn removing_returns_the_partners_and_ends_the_contacts() {
    let mut index = SpatialIndex::new();
    index.add_hitbox(body(1), square(10, 0, 0)).unwrap();
    index.add_hitbox(body(2), square(10, 8, 0)).unwrap();
    index.add_hitbox(body(3), square(10, -8, 0)).unwrap();
    index.add_hitbox(body(4), square(10, 100, 100)).unwrap();
    assert_eq!(index.remove_hitbox(1), Ok(vec![body(2), body(3)]));
    assert_eq!(index.len(), 3);
    assert!(!index.contains(1));
    assert_eq!(index.get_hitbox(1), Err(CollisionError::UnknownBodyId));
    assert!(!index.is_overlapping(1, 2));
    assert!(!index.is_overlapping(2, 1));
    assert!(index.get_overlaps(2).is_empty());
    assert!(index.get_overlaps(3).is_empty());
    // The others stay in their order.
    assert_eq!(index.entry_at(0).profile, body(2));
    assert_eq!(index.entry_at(1).profile, body(3));
    assert_eq!(index.entry_at(2).profile, body(4));
    assert_eq!(index.find(3), Some(1));
    assert_eq!(index.find(1), None);
    // Removing it again is refused.
    assert_eq!(index.remove_hitbox(1), Err(CollisionError::UnknownBodyId));
    assert_eq!(index.len(), 3);
    // A body without contacts leaves with an empty list.
    assert_eq!(index.remove_hitbox(4), Ok(vec![]));
}

#[test]
fn velocity_is_set_for_bodies_and_kept_by_walls() {
    let mut index = SpatialIndex::new();
    index.add_hitbox(body(1), square(10, 0, 0)).unwrap();
    index.add_hitbox(wall(2), square(10, 50, 0)).unwrap();
    assert_eq!(index.set_hitbox_vel(1, v2(3, -4)), Ok(()));
    assert_eq!(index.get_hitbox(1), Ok(Shape::square(10).place(v2(0, 0)).moving(v2(3, -4))));
    assert_eq!(index.set_hitbox_vel(2, v2(3, -4)), Ok(()));
    assert_eq!(index.get_hitbox(2), Ok(square(10, 50, 0)));
    assert_eq!(index.set_hitbox_vel(9, v2(1, 1)), Err(CollisionError::UnknownBodyId));
    assert_eq!(index.time(), 0);
    assert_eq!(index.len(), 2);
}

#[test]
fn asking_twice_gives_the_same_hitbox() {
    let mut index = SpatialIndex::new();
    index.add_hitbox(body(1), Shape::square(10).place(v2(0, 0)).moving(v2(2, 1))).unwrap();
    index.set_time(17);
    let first = index.get_hitbox(1);
    let second = index.get_hitbox(1);
    assert_eq!(first, second);
    assert_eq!(first, Ok(Shape::square(10).place(v2(34, 17)).moving(v2(2, 1))));
    assert_eq!(index.get_hitbox(5), index.get_hitbox(5));
}

#[test]
fn the_clock_moves_bodies_and_never_runs_back() {
    let mut index = SpatialIndex::new();
    index.add_hitbox(body(1), Shape::square(10).place(v2(0, 0)).moving(v2(3, -2))).unwrap();
    index.add_hitbox(wall(2), square(10, 500, 0)).unwrap();
    index.set_time(10);
    assert_eq!(index.time(), 10);
    assert_eq!(index.get_hitbox(1), Ok(Shape::square(10).place(v2(30, -20)).moving(v2(3, -2))));
    assert_eq!(index.get_hitbox(2), Ok(square(10, 500, 0)));
    index.set_time(25);
    assert_eq!(index.time(), 25);
    assert_eq!(index.get_hitbox(1), Ok(Shape::square(10).place(v2(75, -50)).moving(v2(3, -2))));
    // An earlier instant is a no-op.
    index.set_time(20);
    assert_eq!(index.time(), 25);
    assert_eq!(index.get_hitbox(1), Ok(Shape::square(10).place(v2(75, -50)).moving(v2(3, -2))));
    index.set_time(0);
    assert_eq!(index.time(), 25);
    // So is the instant of the clock itself.
    index.set_time(25);
    assert_eq!(index.time(), 25);
    assert_eq!(index.get_hitbox(1), Ok(Shape::square(10).place(v2(75, -50)).moving(v2(3, -2))));
}

#[test]
fn a_new_velocity_counts_from_the_clock_on() {
    let mut index = SpatialIndex::new();
    index.add_hitbox(body(1), Shape::square(10).place(v2(0, 0)).moving(v2(3, 0))).unwrap();
    index.set_time(10);
    index.set_hitbox_vel(1, v2(0, 5)).unwrap();
    assert_eq!(index.time(), 10);
    assert_eq!(index.get_hitbox(1), Ok(Shape::square(10).place(v2(30, 0)).moving(v2(0, 5))));
    index.set_time(12);
    assert_eq!(index.get_hitbox(1), Ok(Shape::square(10).place(v2(30, 10)).moving(v2(0, 5))));
}

#[test]
fn begin_and_end_events_come_at_their_instants() {
    let mut index = SpatialIndex::new();
    index.add_hitbox(body(5), Shape::square(10).place(v2(0, 0)).moving(v2(3, 0))).unwrap();
    index.add_hitbox(wall(2), square(10, 30, 0)).unwrap();
    // The gap of 20 is closed after 6 2/3 instants.
    assert_eq!(index.next_time(), Some(7));
    assert!(index.next().is_empty());
    index.set_time(5);
    assert_eq!(index.next_time(), Some(7));
    assert!(index.next().is_empty());
    assert!(!index.is_overlapping(5, 2));
    index.set_time(7);
    assert_eq!(index.next_time(), Some(7));
    // The handle with the smaller identity comes first.
    assert_eq!(index.next(), vec![(EventKind::Begin, wall(2), body(5))]);
    assert!(index.is_overlapping(5, 2));
    assert_eq!(index.get_overlaps(5), vec![wall(2)]);
    // Handed out once only.
    assert!(index.next().is_empty());
    // The body passes through: the overlap ends when its left edge passes
    // the right edge of the wall, 40 units from the start, after 13 1/3.
    assert_eq!(index.next_time(), Some(14));
    index.set_time(14);
    assert_eq!(index.next(), vec![(EventKind::End, wall(2), body(5))]);
    assert!(!index.is_overlapping(5, 2));
    assert!(index.get_overlaps(5).is_empty());
    assert_eq!(index.next_time(), None);
}

#[test]
fn simultaneous_events_all_come_out() {
    let mut index = SpatialIndex::new();
    index.add_hitbox(body(1), Shape::square(10).place(v2(0, 0)).moving(v2(0, 0))).unwrap();
    index.add_hitbox(body(2), Shape::square(10).place(v2(-20, 0)).moving(v2(2, 0))).unwrap();
    index.add_hitbox(body(3), Shape::square(10).place(v2(20, 0)).moving(v2(-2, 0))).unwrap();
    index.add_hitbox(body(4), Shape::square(10).place(v2(0, 35)).moving(v2(0, -5))).unwrap();
    // The gaps of 10 on the left and on the right close at 2 per instant, the
    // gap of 25 above at 5 per instant: all three overlap from instant 6 on.
    // The bodies on the left and on the right are then 16 apart, and the body
    // above is 8 off each of them along x and 5 along y.
    assert_eq!(index.next_time(), Some(6));
    index.set_time(6);
    assert_eq!(
        index.next(),
        vec![
            (EventKind::Begin, body(1), body(2)),
            (EventKind::Begin, body(1), body(3)),
            (EventKind::Begin, body(1), body(4)),
            (EventKind::Begin, body(2), body(4)),
            (EventKind::Begin, body(3), body(4)),
        ]
    );
    assert_eq!(index.get_overlaps(1), vec![body(2), body(3), body(4)]);
    assert_eq!(index.get_overlaps(4), vec![body(1), body(2), body(3)]);
    assert!(!index.is_overlapping(2, 3));
    assert!(index.next().is_empty());
}

#[test]
fn a_changed_velocity_changes_the_next_event() {
    let mut index = SpatialIndex::new();
    index.add_hitbox(body(1), Shape::square(10).place(v2(0, 0)).moving(v2(3, 0))).unwrap();
    index.add_hitbox(wall(2), square(10, 30, 0)).unwrap();
    assert_eq!(index.next_time(), Some(7));
    index.set_hitbox_vel(1, v2(-3, 0)).unwrap();
    assert_eq!(index.next_time(), None);
    index.set_hitbox_vel(1, v2(10, 0)).unwrap();
    assert_eq!(index.next_time(), Some(3));
    // Removing the wall removes the event.
    index.remove_hitbox(2).unwrap();
    assert_eq!(index.next_time(), None);
    // A wall put in the way brings one back.
    index.add_hitbox(wall(3), square(10, 15, 0)).unwrap();
    assert_eq!(index.next_time(), Some(1));
}

#[test]
fn handling_a_wall_contact_replaces_the_body() {
    let mut index = SpatialIndex::new();
    index.add_hitbox(wall(1), square(100, 0, 0)).unwrap();
    index.add_hitbox(wall(2), square(100, -120, 0)).unwrap();
    // The body has sunk 3 units into the first wall from the left, and lies
    // SMALL - 1 off the second wall behind it.
    let start = Shape::square(10).place(v2(-52, 0)).moving(v2(4, 9));
    index.add_hitbox(body(3), start).unwrap();
    index.add_hitbox(body(4), square(10, -52 - SMALL, 8)).unwrap();
    assert_eq!(index.get_overlaps(3), vec![wall(1)]);
    let fresh = handle_wall_collision(body(3), wall(1), &mut index);
    // Pushed out to the left, it has left the wall and met the other body.
    assert_eq!(
        index.get_hitbox(3),
        Ok(Shape::square(10).place(v2(-52 - SMALL, 0)).moving(v2(0, 9)))
    );
    assert_eq!(fresh, vec![body(4)]);
    assert_eq!(index.get_overlaps(3), vec![body(4)]);
    assert!(!index.is_overlapping(3, 1));
    // It is the last in the order now; the walls are where they were.
    assert_eq!(index.len(), 4);
    assert_eq!(index.entry_at(3).profile, body(3));
    assert_eq!(index.get_hitbox(1), Ok(square(100, 0, 0)));
    assert_eq!(index.get_hitbox(2), Ok(square(100, -120, 0)));
}

#[test]
fn entries_are_valid_within_the_limits() {
    let ok = Entry { profile: body(1), hitbox: Shape::square(10).place(v2(0, 0)).moving(v2(1, 0)) };
    assert!(ok.is_valid());
    let moving_wall =
        Entry { profile: wall(1), hitbox: Shape::square(10).place(v2(0, 0)).moving(v2(1, 0)) };
    assert!(!moving_wall.is_valid());
    let still_wall = Entry { profile: wall(1), hitbox: square(10, 0, 0) };
    assert!(still_wall.is_valid());
    let flat = Entry { profile: body(1), hitbox: square(0, 0, 0) };
    assert!(!flat.is_valid());
    assert_eq!(TIME_MAX, 1_000_000_000_000_000_000);
}

#[test]
fn removing_mid_overlap_returns_the_partner_of_the_contact() {
    let mut index = SpatialIndex::new();
    index.add_hitbox(body(5), Shape::square(10).place(v2(0, 0)).moving(v2(3, 0))).unwrap();
    index.add_hitbox(wall(2), square(10, 30, 0)).unwrap();
    index.add_hitbox(wall(8), square(10, 30, 100)).unwrap();
    // Before the contact begins the body has no partner.
    index.set_time(7);
    assert_eq!(index.next(), vec![(EventKind::Begin, wall(2), body(5))]);
    index.set_time(9);
    assert_eq!(index.get_overlaps(5), vec![wall(2)]);
    assert_eq!(index.remove_hitbox(5), Ok(vec![wall(2)]));
    assert!(index.get_overlaps(2).is_empty());
    assert!(!index.is_overlapping(2, 5));
    // No end event follows for a body that is gone.
    assert_eq!(index.next_time(), None);
    assert!(index.next().is_empty());
}

#[test]
fn the_clock_is_not_set_past_an_event() {
    let mut index = SpatialIndex::new();
    let start = Shape::square(10).place(v2(0, 0)).moving(v2(3, 0));
    index.add_hitbox(body(1), start).unwrap();
    index.add_hitbox(wall(2), square(10, 30, 0)).unwrap();
    // The contact begins at 7.
    assert!(!index.try_set_time(8));
    assert_eq!(index.time(), 0);
    assert_eq!(index.get_hitbox(1), Ok(start));
    assert!(index.try_set_time(7));
    assert_eq!(index.time(), 7);
    assert_eq!(index.get_hitbox(1), Ok(Shape::square(10).place(v2(21, 0)).moving(v2(3, 0))));
    // The event is due now: the clock stays until it is handed out.
    assert!(!index.try_set_time(8));
    assert_eq!(index.next().len(), 1);
    assert!(index.try_set_time(8));
    // An instant that is not later than the clock is granted and changes nothing.
    assert!(index.try_set_time(3));
    assert!(index.try_set_time(8));
    assert_eq!(index.time(), 8);
    assert_eq!(index.get_hitbox(1), Ok(Shape::square(10).place(v2(24, 0)).moving(v2(3, 0))));
}

#[test]
fn the_clock_is_not_set_where_a_body_would_leave_the_range() {
    let mut index = SpatialIndex::new();
    index
        .add_hitbox(body(1), Shape::square(10).place(v2(POS_LIMIT - 10, 0)).moving(v2(1, -1)))
        .unwrap();
    assert!(!index.try_set_time(11));
    assert_eq!(index.time(), 0);
    assert!(index.try_set_time(10));
    assert_eq!(
        index.get_hitbox(1),
        Ok(Shape::square(10).place(v2(POS_LIMIT, -10)).moving(v2(1, -1)))
    );
    assert!(!index.try_set_time(11));
    assert_eq!(index.time(), 10);
    // Turned round, it may go on.
    index.set_hitbox_vel(1, v2(-1, 0)).unwrap();
    assert!(index.try_set_time(11));
    assert_eq!(index.time(), 11);
}

#[test]
fn the_clock_stops_at_its_last_instant() {
    let mut index = SpatialIndex::new();
    index.add_hitbox(body(1), square(10, 0, 0)).unwrap();
    assert!(!index.try_set_time(TIME_MAX + 1));
    assert_eq!(index.time(), 0);
    assert!(index.try_set_time(TIME_MAX));
    assert_eq!(index.time(), TIME_MAX);
    assert_eq!(index.get_hitbox(1), Ok(square(10, 0, 0)));
}

#[test]
fn handling_a_contact_of_two_bodies_replaces_both() {
    let mut index = SpatialIndex::new();
    index.add_hitbox(wall(1), square(100, 0, 200)).unwrap();
    // Two bodies that have sunk 6 units into each other, the left one moving
    // right and up, the right one at rest.
    index.add_hitbox(body(2), Shape::square(100).place(v2(0, 0)).moving(v2(5, 2))).unwrap();
    index.add_hitbox(body(3), square(100, 94, 0)).unwrap();
    // A bystander that the right body will be pushed into.
    index.add_hitbox(body(4), square(100, 94 + 100 + SMALL - 1, 0)).unwrap();
    assert!(index.is_overlapping(2, 3));
    let (first, second) = handle_entity_collision(body(2), body(3), &mut index);
    assert_eq!(
        index.get_hitbox(2),
        Ok(Shape::square(100).place(v2(-SMALL, 0)).moving(v2(0, 2)))
    );
    assert_eq!(index.get_hitbox(3), Ok(square(100, 94 + SMALL, 0)));
    // The two are apart now, and the right one has met the bystander.
    assert!(!index.is_overlapping(2, 3));
    assert!(first.is_empty());
    assert_eq!(second, vec![body(4)]);
    assert_eq!(index.get_overlaps(3), vec![body(4)]);
    // Both are last in the order now, the first before the second.
    assert_eq!(index.entry_at(2).profile, body(2));
    assert_eq!(index.entry_at(3).profile, body(3));
    assert_eq!(index.get_hitbox(1), Ok(square(100, 0, 200)));
}

#[test]
fn a_deep_contact_of_two_bodies_outlasts_one_resolution() {
    let mut index = SpatialIndex::new();
    index.add_hitbox(body(1), square(1_000_000, 0, 0)).unwrap();
    index.add_hitbox(body(2), square(1_000_000, 1_000_000 - 5 * SMALL, 0)).unwrap();
    let (first, second) = handle_entity_collision(body(1), body(2), &mut index);
    assert!(index.is_overlapping(1, 2));
    assert_eq!(first, vec![body(2)]);
    assert_eq!(second, vec![body(1)]);
    // Two more resolutions part them: 5 * SMALL is less than 3 * 2 * SMALL.
    handle_entity_collision(body(1), body(2), &mut index);
    assert!(index.is_overlapping(1, 2));
    handle_entity_collision(body(1), body(2), &mut index);
    assert!(!index.is_overlapping(1, 2));
    assert_eq!(index.get_hitbox(1), Ok(square(1_000_000, -3 * SMALL, 0)));
    assert_eq!(index.get_hitbox(2), Ok(square(1_000_000, 1_000_000 - 2 * SMALL, 0)));
}
