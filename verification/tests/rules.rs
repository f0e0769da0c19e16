use arena_physics::geom::{v2, Shape, POS_LIMIT, SCALE};
use arena_physics::level::{is_wall, load_level, wall_hitbox, CELL};
use arena_physics::resources::SelectionBox;
use arena_physics::systems::friendly::{FriendlySystem, DISTANCE_BEFORE_STOP, WALK_SPEED};
use arena_physics::systems::tick::TICK;

#[test]
fn a_character_stops_within_four_world_units_of_its_goal() {
    assert_eq!(DISTANCE_BEFORE_STOP, 4 * SCALE);
    // 60 world units per second, at 60 ticks per second.
    assert_eq!(WALK_SPEED * TICK as i64 * 60, 60 * SCALE);
    assert!(FriendlySystem::has_arrived(v2(0, 0), v2(0, 0)));
    assert!(FriendlySystem::has_arrived(v2(0, 0), v2(3_999_999, 0)));
    assert!(!FriendlySystem::has_arrived(v2(0, 0), v2(4_000_000, 0)));
    assert!(!FriendlySystem::has_arrived(v2(0, 0), v2(0, -4_000_000)));
    // A 3-4-5 triangle scaled to a hypotenuse of just under and of exactly 4.
    assert!(FriendlySystem::has_arrived(v2(10, 10), v2(10 + 2_399_999, 10 + 3_200_000)));
    assert!(!FriendlySystem::has_arrived(v2(10, 10), v2(10 + 2_400_000, 10 - 3_200_000)));
    assert!(!FriendlySystem::has_arrived(v2(-POS_LIMIT, -POS_LIMIT), v2(POS_LIMIT, POS_LIMIT)));
}

#[test]
fn a_selection_box_holds_what_lies_strictly_inside() {
    assert_eq!(SelectionBox::new(), SelectionBox { start: v2(0, 0), stop: v2(0, 0) });
    assert!(!SelectionBox::new().contains(v2(0, 0)));
    let dragged = SelectionBox { start: v2(10, 50), stop: v2(-30, 20) };
    assert!(dragged.contains(v2(0, 30)));
    assert!(dragged.contains(v2(-29, 49)));
    assert!(!dragged.contains(v2(10, 30)));
    assert!(!dragged.contains(v2(-30, 30)));
    assert!(!dragged.contains(v2(0, 50)));
    assert!(!dragged.contains(v2(0, 20)));
    assert!(!dragged.contains(v2(11, 30)));
    // The same box dragged the other way.
    let other = SelectionBox { start: v2(-30, 20), stop: v2(10, 50) };
    assert!(other.contains(v2(0, 30)));
    assert!(!other.contains(v2(10, 30)));
}

#[test]
fn black_opaque_pixels_are_walls_of_one_cell() {
    assert_eq!(CELL, 32 * SCALE);
    assert!(is_wall([0, 0, 0, 255]));
    assert!(!is_wall([0, 0, 0, 254]));
    assert!(!is_wall([1, 0, 0, 255]));
    assert!(!is_wall([0, 1, 0, 255]));
    assert!(!is_wall([0, 0, 1, 255]));
    assert!(!is_wall([255, 255, 255, 255]));
    assert_eq!(wall_hitbox(0, 0), Shape::square(CELL).place(v2(0, 0)).still());
    assert_eq!(wall_hitbox(3, 7), Shape::square(CELL).place(v2(96_000_000, 224_000_000)).still());
    let far = wall_hitbox(u32::MAX, u32::MAX);
    assert!(far.is_valid());
    assert_eq!(far.value.pos.x, 4_294_967_295 * 32_000_000);
    // Neighbouring walls touch and do not overlap.
    assert!(!wall_hitbox(3, 7).value.overlaps(&wall_hitbox(4, 7).value));
    assert!(!wall_hitbox(3, 7).value.overlaps(&wall_hitbox(3, 8).value));
}

#[test]
fn a_level_becomes_its_walls_row_by_row() {
    let wall = [0, 0, 0, 255];
    let free = [255, 255, 255, 255];
    let clear = [0, 0, 0, 0];
    // Three pixels wide, two rows.
    let pixels = vec![wall, free, wall, clear, wall, free];
    assert_eq!(load_level(3, &pixels), vec![wall_hitbox(0, 0), wall_hitbox(2, 0), wall_hitbox(1, 1)]);
    // The same pixels in an image that is two pixels wide.
    assert_eq!(load_level(2, &pixels), vec![wall_hitbox(0, 0), wall_hitbox(0, 1), wall_hitbox(0, 2)]);
    assert_eq!(load_level(1, &vec![free, wall]), vec![wall_hitbox(0, 1)]);
    assert!(load_level(7, &vec![]).is_empty());
    assert!(load_level(2, &vec![free, clear, free]).is_empty());
}
