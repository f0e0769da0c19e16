use arena_physics::geom::{
    v2, Card, Normal, Shape, Vec2, DIM_MAX, POS_LIMIT, TIME_MAX, VEL_MAX,
};

#[test]
fn normal_points_from_other_toward_self() {
    // A 30 x 20 rectangle whose right edge has sunk one unit into a square.
    let body = Shape::rect(v2(30, 20)).place(v2(0, 0));
    let wall = Shape::square(32).place(v2(30, 0));
    let normal = body.normal_from(&wall);
    assert_eq!(normal, Normal { card: Card::MinusX, twice_len: 2 });
    assert_eq!(normal.dir(), v2(-1, 0));
    assert_eq!(normal.twice_len(), 2);
    // Seen from the wall the normal points the other way, with the same length.
    let back = wall.normal_from(&body);
    assert_eq!(back, Normal { card: Card::PlusX, twice_len: 2 });
    assert_eq!(back.dir(), v2(1, 0));
}

#[test]
fn overlap_along_each_direction() {
    let body = Shape::rect(v2(30, 20)).place(v2(0, 0));
    let wall = Shape::square(32).place(v2(30, 0));
    assert_eq!(body.twice_overlap_along(&wall, Card::MinusX), 2);
    assert_eq!(body.twice_overlap_along(&wall, Card::PlusX), 122);
    assert_eq!(body.twice_overlap_along(&wall, Card::MinusY), 52);
    assert_eq!(body.twice_overlap_along(&wall, Card::PlusY), 52);
}

#[test]
fn touching_shapes_do_not_overlap() {
    let left = Shape::square(32).place(v2(0, 0));
    let right = Shape::square(32).place(v2(32, 0));
    assert_eq!(left.normal_from(&right), Normal { card: Card::MinusX, twice_len: 0 });
    assert!(!left.overlaps(&right));
    assert!(!right.overlaps(&left));
    // One unit closer and they do.
    let closer = Shape::square(32).place(v2(31, 0));
    assert!(left.overlaps(&closer));
    assert!(closer.overlaps(&left));
}

#[test]
fn shapes_apart_have_a_negative_length() {
    let low = Shape::square(10).place(v2(0, 0));
    let high = Shape::square(10).place(v2(0, 30));
    assert_eq!(low.normal_from(&high), Normal { card: Card::MinusY, twice_len: -40 });
    assert_eq!(high.normal_from(&low), Normal { card: Card::PlusY, twice_len: -40 });
    assert!(!low.overlaps(&high));
}

#[test]
fn half_units_are_kept() {
    // Odd sizes put the edges half a unit off the centres.
    let a = Shape::rect(v2(3, 3)).place(v2(0, 0));
    let b = Shape::rect(v2(4, 4)).place(v2(3, 0));
    // a reaches to 1.5, b starts at 1: they overlap by half a unit.
    assert_eq!(a.normal_from(&b), Normal { card: Card::MinusX, twice_len: 1 });
    assert!(a.overlaps(&b));
}

#[test]
fn coincident_shapes_get_the_first_direction() {
    let a = Shape::square(10).place(v2(5, 5));
    let b = Shape::square(10).place(v2(5, 5));
    assert_eq!(a.normal_from(&b), Normal { card: Card::MinusX, twice_len: 20 });
    assert_eq!(a.normal_from(&b).dir(), v2(-1, 0));
    assert!(a.overlaps(&b));
}

#[test]
fn equal_overlaps_go_to_the_earlier_direction() {
    // Offset along the diagonal: the overlap is the same along -x and -y.
    let a = Shape::square(10).place(v2(0, 0));
    let b = Shape::square(10).place(v2(6, 6));
    assert_eq!(a.normal_from(&b), Normal { card: Card::MinusX, twice_len: 8 });
    let c = Shape::square(10).place(v2(-6, -6));
    assert_eq!(a.normal_from(&c), Normal { card: Card::PlusX, twice_len: 8 });
    let d = Shape::square(10).place(v2(6, 7));
    assert_eq!(a.normal_from(&d), Normal { card: Card::MinusY, twice_len: 6 });
}

#[test]
fn cards_flip_and_give_unit_vectors() {
    assert_eq!(Card::MinusX.flip(), Card::PlusX);
    assert_eq!(Card::PlusX.flip(), Card::MinusX);
    assert_eq!(Card::MinusY.flip(), Card::PlusY);
    assert_eq!(Card::PlusY.flip(), Card::MinusY);
    assert_eq!(Card::MinusX.unit(), v2(-1, 0));
    assert_eq!(Card::MinusY.unit(), v2(0, -1));
    assert_eq!(Card::PlusX.unit(), v2(1, 0));
    assert_eq!(Card::PlusY.unit(), v2(0, 1));
}

#[test]
fn builders_keep_what_they_are_given() {
    let shape = Shape::rect(v2(30, 20));
    assert_eq!(shape.dims(), v2(30, 20));
    assert_eq!(Shape::square(32).dims(), v2(32, 32));
    let placed = shape.place(v2(7, -9));
    assert_eq!(placed.pos, v2(7, -9));
    assert_eq!(placed.shape, shape);
    let moving = placed.moving(v2(3, 4));
    assert_eq!(moving.value, placed);
    assert_eq!(moving.vel, v2(3, 4));
    let still = placed.still();
    assert_eq!(still.value, placed);
    assert_eq!(still.vel, Vec2::zero());
    assert_eq!(Vec2::zero(), v2(0, 0));
}

#[test]
fn validity_follows_the_limits() {
    assert!(Shape::square(1).is_valid());
    assert!(Shape::square(DIM_MAX).is_valid());
    assert!(!Shape::square(0).is_valid());
    assert!(!Shape::square(-5).is_valid());
    assert!(!Shape::square(DIM_MAX + 1).is_valid());
    assert!(!Shape::rect(v2(5, 0)).is_valid());
    assert!(Shape::square(1).place(v2(POS_LIMIT, -POS_LIMIT)).is_valid());
    assert!(!Shape::square(1).place(v2(POS_LIMIT + 1, 0)).is_valid());
    assert!(!Shape::square(1).place(v2(0, -POS_LIMIT - 1)).is_valid());
    assert!(v2(VEL_MAX, -VEL_MAX).is_valid_velocity());
    assert!(!v2(VEL_MAX + 1, 0).is_valid_velocity());
    assert!(!v2(0, -VEL_MAX - 1).is_valid_velocity());
    assert!(Shape::square(1).place(v2(0, 0)).moving(v2(VEL_MAX, 0)).is_valid());
    assert!(!Shape::square(1).place(v2(0, 0)).moving(v2(VEL_MAX + 1, 0)).is_valid());
    assert!(!Shape::square(0).place(v2(0, 0)).still().is_valid());
}

#[test]
fn a_hitbox_is_projected_forward_in_time() {
    let hb = Shape::rect(v2(30, 20)).place(v2(100, -50)).moving(v2(3, -2));
    assert!(hb.can_advance(0));
    assert_eq!(hb.advance(0), hb);
    assert!(hb.can_advance(17));
    assert_eq!(hb.advance(17), Shape::rect(v2(30, 20)).place(v2(151, -84)).moving(v2(3, -2)));
    let still = Shape::square(5).place(v2(POS_LIMIT, -POS_LIMIT)).still();
    assert!(still.can_advance(TIME_MAX));
    assert_eq!(still.advance(TIME_MAX), still);
    // A move may end on the limit and not beyond it.
    let near = Shape::square(5).place(v2(POS_LIMIT - 20, 0)).moving(v2(4, 0));
    assert!(near.can_advance(5));
    assert_eq!(near.advance(5).value.pos, v2(POS_LIMIT, 0));
    assert!(!near.can_advance(6));
    let fast = Shape::square(5).place(v2(0, 0)).moving(v2(0, -VEL_MAX));
    assert!(fast.can_advance(1_000_000_000));
    assert_eq!(fast.advance(1_000_000_000).value.pos, v2(0, -POS_LIMIT));
    assert!(!fast.can_advance(1_000_000_001));
    assert!(!fast.can_advance(TIME_MAX));
}

#[test]
fn shapes_coincide_when_place_and_size_are_equal() {
    let a = Shape::rect(v2(30, 20)).place(v2(7, -9));
    assert!(a.coincides(&Shape::rect(v2(30, 20)).place(v2(7, -9))));
    assert!(!a.coincides(&Shape::rect(v2(30, 20)).place(v2(7, -8))));
    assert!(!a.coincides(&Shape::rect(v2(30, 21)).place(v2(7, -9))));
    assert!(!a.coincides(&Shape::rect(v2(20, 30)).place(v2(7, -9))));
}
