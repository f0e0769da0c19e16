use arena_physics::geom::{v2, Card, Shape};
use arena_physics::physics::{
    dot_product, resolve_entity_collision, resolve_wall_collision, Profile, SMALL,
};

#[test]
fn small_is_a_hundredth_of_a_world_unit() {
    assert_eq!(SMALL * 100, arena_physics::geom::SCALE);
}

#[test]
fn dot_product_is_exact() {
    assert_eq!(dot_product(v2(3, 4), v2(5, -6)), -9);
    assert_eq!(dot_product(v2(0, 0), v2(5, -6)), 0);
    assert_eq!(dot_product(v2(1_000_000_000, 0), v2(1_000_000_000, 7)), 1_000_000_000_000_000_000);
    let big = 1_000_000_000_000_000_000i64;
    assert_eq!(
        dot_product(v2(big, big), v2(big, big)),
        2_000_000_000_000_000_000_000_000_000_000_000_000i128
    );
}

#[test]
fn wall_resolution_pushes_out_and_slides() {
    // A square body that has sunk 5000 units into a wall on its right.
    let body = Shape::square(32_000_000).place(v2(-31_995_000, 0)).moving(v2(1_000, 250));
    let wall = Shape::square(32_000_000).place(v2(0, 0)).still();
    let normal = body.value.normal_from(&wall.value);
    assert_eq!(normal.card, Card::MinusX);
    assert_eq!(normal.twice_len, 10_000);
    let out = resolve_wall_collision(body, wall);
    assert_eq!(out.value.pos, v2(-32_005_000, 0));
    assert_eq!(out.vel, v2(0, 250));
    assert_eq!(out.value.shape, body.value.shape);
    // No velocity is left along the normal, and the slide along the wall stays.
    assert_eq!(dot_product(out.vel, normal.dir()), 0);
    assert_eq!(dot_product(out.vel, v2(0, 1)), dot_product(body.vel, v2(0, 1)));
    // The overlap along the normal has shrunk by SMALL: the two are apart.
    assert_eq!(out.value.normal_from(&wall.value).twice_len, 10_000 - 2 * SMALL);
    assert!(!out.value.overlaps(&wall.value));
}

#[test]
fn wall_resolution_along_each_direction() {
    let wall = Shape::square(100).place(v2(0, 0)).still();
    // Body above the wall, sunk in from the top.
    let above = Shape::square(10).place(v2(0, 54)).moving(v2(7, -3));
    let out = resolve_wall_collision(above, wall);
    assert_eq!(out.value.pos, v2(0, 54 + SMALL));
    assert_eq!(out.vel, v2(7, 0));
    // Body below the wall.
    let below = Shape::square(10).place(v2(0, -54)).moving(v2(7, 3));
    let out = resolve_wall_collision(below, wall);
    assert_eq!(out.value.pos, v2(0, -54 - SMALL));
    assert_eq!(out.vel, v2(7, 0));
    // Body right of the wall.
    let right = Shape::square(10).place(v2(54, 0)).moving(v2(-7, 3));
    let out = resolve_wall_collision(right, wall);
    assert_eq!(out.value.pos, v2(54 + SMALL, 0));
    assert_eq!(out.vel, v2(0, 3));
    // Body left of the wall.
    let left = Shape::square(10).place(v2(-54, 0)).moving(v2(7, 3));
    let out = resolve_wall_collision(left, wall);
    assert_eq!(out.value.pos, v2(-54 - SMALL, 0));
    assert_eq!(out.vel, v2(0, 3));
}

#[test]
fn deep_contact_is_resolved_by_one_step_only() {
    // 40 world units deep: one resolution moves the body by SMALL, not out.
    let body = Shape::square(10_000_000).place(v2(-60_000_000, 0)).moving(v2(50, 0));
    let wall = Shape::square(200_000_000).place(v2(0, 0)).still();
    let before = body.value.normal_from(&wall.value);
    assert_eq!(before.card, Card::MinusX);
    assert_eq!(before.twice_len, 90_000_000);
    let out = resolve_wall_collision(body, wall);
    assert_eq!(out.value.pos, v2(-60_010_000, 0));
    assert_eq!(out.value.normal_from(&wall.value).twice_len, 90_000_000 - 2 * SMALL);
    assert!(out.value.overlaps(&wall.value));
}

#[test]
fn head_on_bodies_part_and_stop_along_the_line_of_centres() {
    // Two equal squares that approach head-on at the same speed and have sunk
    // 2000 units into each other.
    let a = Shape::square(32_000_000).place(v2(-15_999_000, 0)).moving(v2(500, 0));
    let b = Shape::square(32_000_000).place(v2(15_999_000, 0)).moving(v2(-500, 0));
    let normal = a.value.normal_from(&b.value);
    assert_eq!(normal.card, Card::MinusX);
    assert_eq!(normal.twice_len, 4_000);
    let (out_a, out_b) = resolve_entity_collision(a, b);
    assert_eq!(out_a.value.pos, v2(-16_009_000, 0));
    assert_eq!(out_b.value.pos, v2(16_009_000, 0));
    assert_eq!(out_a.vel, v2(0, 0));
    assert_eq!(out_b.vel, v2(0, 0));
    assert_eq!(out_a.value.shape, a.value.shape);
    assert_eq!(out_b.value.shape, b.value.shape);
    // Zero velocity along the line that joins the centres.
    let line = v2(1, 0);
    assert_eq!(dot_product(out_a.vel, line), 0);
    assert_eq!(dot_product(out_b.vel, line), 0);
    assert!(!out_a.value.overlaps(&out_b.value));
    assert!(!out_b.value.overlaps(&out_a.value));
}

#[test]
fn each_body_keeps_its_own_slide() {
    // A glancing contact: the velocities are not exchanged or averaged.
    let a = Shape::square(100).place(v2(0, 0)).moving(v2(30, 11));
    let b = Shape::square(100).place(v2(0, 98)).moving(v2(-4, -20));
    let (out_a, out_b) = resolve_entity_collision(a, b);
    // The normal points from b toward a: down.
    assert_eq!(out_a.value.pos, v2(0, -SMALL));
    assert_eq!(out_b.value.pos, v2(0, 98 + SMALL));
    assert_eq!(out_a.vel, v2(30, 0));
    assert_eq!(out_b.vel, v2(-4, 0));
}

#[test]
fn profile_identity_widens() {
    let p = Profile { id: 4_000_000_000, wall: true };
    assert_eq!(p.id(), 4_000_000_000u64);
    assert_eq!(Profile { id: 0, wall: false }.id(), 0);
}

#[test]
fn a_deep_contact_of_two_bodies_is_less_deep_after_one_resolution() {
    // 5 * SMALL deep: one resolution takes 2 * SMALL off and leaves an overlap.
    let a = Shape::square(1_000_000).place(v2(0, 0)).moving(v2(10, 0));
    let b = Shape::square(1_000_000).place(v2(1_000_000 - 5 * SMALL, 0)).moving(v2(-10, 0));
    assert_eq!(a.value.normal_from(&b.value).twice_len, 10 * SMALL);
    let (out_a, out_b) = resolve_entity_collision(a, b);
    assert_eq!(out_a.value.normal_from(&out_b.value).twice_len, 6 * SMALL);
    assert!(out_a.value.overlaps(&out_b.value));
    // A contact of exactly 2 * SMALL ends in touching, which is no overlap.
    let c = Shape::square(1_000_000).place(v2(1_000_000 - 2 * SMALL, 0)).moving(v2(-10, 0));
    let (out_a, out_c) = resolve_entity_collision(a, c);
    assert_eq!(out_a.value.normal_from(&out_c.value).twice_len, 0);
    assert!(!out_a.value.overlaps(&out_c.value));
}
