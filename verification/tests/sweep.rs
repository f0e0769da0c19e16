use arena_physics::geom::{v2, Shape};
use arena_physics::sweep::{axis_window, floor_div, next_change, Window};

#[test]
fn floor_div_rounds_down() {
    assert_eq!(floor_div(7, 2), 3);
    assert_eq!(floor_div(8, 2), 4);
    assert_eq!(floor_div(0, 5), 0);
    assert_eq!(floor_div(-1, 5), -1);
    assert_eq!(floor_div(-5, 5), -1);
    assert_eq!(floor_div(-6, 5), -2);
    assert_eq!(floor_div(-7, 2), -4);
    assert_eq!(floor_div(-8, 2), -4);
    assert_eq!(floor_div(4, 5), 0);
    assert_eq!(floor_div(5_000_000_000_000_000_000, 4_000_000_000), 1_250_000_000);
    assert_eq!(floor_div(-5_000_000_000_000_000_000, 3), -1_666_666_666_666_666_667);
}

#[test]
fn axis_window_of_a_closing_gap() {
    // -40 < -100 + 6 s < 40 holds for s = 11 .. 23.
    assert_eq!(axis_window(-100, 6, 40), Window { lo: 11, hi: 23, open_end: false });
    // The mirrored gap gives the same window.
    assert_eq!(axis_window(100, -6, 40), Window { lo: 11, hi: 23, open_end: false });
}

#[test]
fn axis_window_bounds_are_strict() {
    // -20 < -60 + 10 s < 20 holds for s = 5, .., 7: at s = 4 and s = 8 the
    // shapes only touch.
    assert_eq!(axis_window(-60, 10, 20), Window { lo: 5, hi: 7, open_end: false });
}

#[test]
fn axis_window_of_an_opening_gap() {
    // Meeting now and drifting apart: -20 < 10 + 4 s < 20 holds for s = 0 .. 2.
    assert_eq!(axis_window(10, 4, 20), Window { lo: 0, hi: 2, open_end: false });
    // Already apart and drifting further: never.
    let w = axis_window(30, 4, 20);
    assert!(w.lo > w.hi && !w.open_end);
}

#[test]
fn axis_window_without_relative_motion() {
    assert_eq!(axis_window(10, 0, 20), Window { lo: 0, hi: 0, open_end: true });
    assert_eq!(axis_window(-19, 0, 20), Window { lo: 0, hi: 0, open_end: true });
    let never = axis_window(20, 0, 20);
    assert!(never.lo > never.hi && !never.open_end);
    let never = axis_window(-25, 0, 20);
    assert!(never.lo > never.hi && !never.open_end);
}

#[test]
fn contact_begins_at_the_first_instant_of_overlap() {
    // A gap of 20 closes at 3 units per instant: the shapes touch after 6 2/3
    // instants and overlap from instant 7 on.
    let a = Shape::square(10).place(v2(0, 0)).moving(v2(3, 0));
    let b = Shape::square(10).place(v2(30, 0)).still();
    assert_eq!(next_change(&a, &b, false), Some(7));
    assert_eq!(next_change(&b, &a, false), Some(7));
    // A gap that closes exactly at an instant: touching is no overlap yet.
    let c = Shape::square(10).place(v2(0, 0)).moving(v2(4, 0));
    assert_eq!(next_change(&c, &b, false), Some(6));
    // A pair that is held to be in contact but is apart is due at once.
    assert_eq!(next_change(&a, &b, true), Some(0));
}

#[test]
fn contact_ends_at_the_first_instant_without_overlap() {
    let a = Shape::square(10).place(v2(0, 0)).moving(v2(-1, 0));
    let b = Shape::square(10).place(v2(5, 0)).still();
    // The overlap of 5 units shrinks by one per instant and is gone at 5.
    assert_eq!(next_change(&a, &b, true), Some(5));
    // A pair that overlaps but is not held to be in contact is due at once.
    assert_eq!(next_change(&a, &b, false), Some(0));
}

#[test]
fn both_axes_must_meet() {
    // The shapes pass each other: they meet along x during 7 .. 13 and along
    // y during 4 .. 9, so they overlap from 7 on and part after 9.
    let a = Shape::square(10).place(v2(0, 0)).moving(v2(3, 2));
    let b = Shape::square(10).place(v2(30, 23)).still();
    assert_eq!(next_change(&a, &b, false), Some(7));
    // A pair on a path along which the windows of the axes do not meet.
    let c = Shape::square(10).place(v2(0, 0)).moving(v2(3, 0));
    let d = Shape::square(10).place(v2(30, 23)).still();
    assert_eq!(next_change(&c, &d, false), None);
}

#[test]
fn nothing_changes_without_relative_motion() {
    let a = Shape::square(10).place(v2(0, 0)).moving(v2(5, 5));
    let b = Shape::square(10).place(v2(30, 0)).moving(v2(5, 5));
    assert_eq!(next_change(&a, &b, false), None);
    let c = Shape::square(10).place(v2(3, 0)).moving(v2(5, 5));
    assert_eq!(next_change(&a, &c, true), None);
    // Moving apart for ever.
    let d = Shape::square(10).place(v2(30, 0)).moving(v2(6, 5));
    assert_eq!(next_change(&a, &d, false), None);
}
