//! Prediction of contact in continuous time: when two hitboxes that move at
//! constant velocities begin or stop to overlap.
//!
//! Along one axis the centres of two hitboxes are `g + v * s` doubled units
//! apart after `s` time units, and the shapes meet on that axis while this
//! lies strictly between `-w` and `w`, where `w` is the sum of their sizes.
//! The instants at which that holds form one window, found by division, not
//! by sampling.

use vstd::prelude::*;
use vstd::arithmetic::div_mod::{lemma_fundamental_div_mod, lemma_mod_bound};
use crate::geom::Hitbox;

verus! {

/// Twice the distance from the centre of `b` to that of `a` along x, after
/// `s` time units.
pub open spec fn twice_gap_x(a: Hitbox, b: Hitbox, s: int) -> int {
    2 * (a.value.pos.x - b.value.pos.x) + 2 * (a.vel.x - b.vel.x) * s
}

/// Twice the distance from the centre of `b` to that of `a` along y, after
/// `s` time units.
pub open spec fn twice_gap_y(a: Hitbox, b: Hitbox, s: int) -> int {
    2 * (a.value.pos.y - b.value.pos.y) + 2 * (a.vel.y - b.vel.y) * s
}

/// Whether the two hitboxes overlap after both have moved for `s` time units.
pub open spec fn overlaps_after(a: Hitbox, b: Hitbox, s: int) -> bool {
    let w = a.value.shape.dims.x + b.value.shape.dims.x;
    let h = a.value.shape.dims.y + b.value.shape.dims.y;
    -w < twice_gap_x(a, b, s) < w && -h < twice_gap_y(a, b, s) < h
}

/// Whether `s` is the first instant, counted from now, at which the overlap
/// of the two hitboxes differs from `in_contact`.
pub open spec fn is_first_change(a: Hitbox, b: Hitbox, in_contact: bool, s: int) -> bool {
    &&& 0 <= s
    &&& overlaps_after(a, b, s) != in_contact
    &&& forall|t: int| 0 <= t < s ==> overlaps_after(a, b, t) == in_contact
}

/// Whether the overlap of the two hitboxes stays equal to `in_contact`
/// for ever.
pub open spec fn never_changes(a: Hitbox, b: Hitbox, in_contact: bool) -> bool {
    forall|t: int| 0 <= t ==> overlaps_after(a, b, t) == in_contact
}

/// Whether two shapes meet on one axis after `s` time units.
pub open spec fn axis_meets(g: int, v: int, w: int, s: int) -> bool {
    -w < g + v * s < w
}

/// A window of instants: those from `lo` on, up to `hi` unless the window is
/// open at its end.
#[derive(Clone, Copy, Debug, PartialEq, Eq, Structural)]
pub struct Window {
    pub lo: i64,
    pub hi: i64,
    pub open_end: bool,
}

impl Window {
    /// Whether the instant `s` lies in the window.
    pub open spec fn has(self, s: int) -> bool {
        self.lo <= s && (self.open_end || s <= self.hi)
    }
}

/// Largest magnitude of a numerator handed to `floor_div`.
pub const NUM_MAX: i64 = 5_000_000_000_000_000_000;

/// Largest divisor handed to `floor_div`.
pub const DEN_MAX: i64 = 4_000_000_000;

/// The quotient of `n` by `d`, rounded toward minus infinity.
pub fn floor_div(n: i64, d: i64) -> (q: i64)
    requires
        0 < d <= DEN_MAX,
        -NUM_MAX <= n <= NUM_MAX,
    ensures
        q * d <= n < q * d + d,
        -NUM_MAX <= q <= NUM_MAX,
{
    if n >= 0 {
        let q: i64 = n / d;
        proof {
            lemma_fundamental_div_mod(n as int, d as int);
            lemma_mod_bound(n as int, d as int);
            assert(q * d == d * q) by (nonlinear_arith);
            assert(0 <= q <= n) by (nonlinear_arith)
                requires
                    q * d <= n,
                    n < q * d + d,
                    0 <= n,
                    0 < d,
            ;
        }
        q
    } else {
        let m: i64 = -n;
        let c: i64 = (m + (d - 1)) / d;
        proof {
            let t = m + (d - 1);
            lemma_fundamental_div_mod(t, d as int);
            lemma_mod_bound(t, d as int);
            assert(c * d == d * c) by (nonlinear_arith);
            assert((-c) * d == -(c * d)) by (nonlinear_arith);
            assert(0 <= c <= m) by (nonlinear_arith)
                requires
                    c * d <= m + d - 1,
                    m < c * d + 1,
                    0 < m,
                    0 < d,
            ;
        }
        -c
    }
}

/// For a positive `v`, an instant lies above the rounded-down quotient of `n`
/// by `v` exactly when `v` times the instant exceeds `n`.
proof fn lemma_threshold(v: int, q: int, n: int, s: int)
    requires
        0 < v,
        q * v <= n < q * v + v,
    ensures
        s > q <==> v * s > n,
{
    assert(s > q ==> v * s >= q * v + v) by (nonlinear_arith)
        requires
            0 < v,
    ;
    assert(s <= q ==> v * s <= q * v) by (nonlinear_arith)
        requires
            0 < v,
    ;
}

/// The window of instants, from now on, at which two shapes meet on one axis.
pub fn axis_window(g: i64, v: i64, w: i64) -> (r: Window)
    requires
        0 < w <= 2_000_000_000_000_000,
        -4_000_000_000_000_000_000 <= g <= 4_000_000_000_000_000_000,
        -DEN_MAX <= v <= DEN_MAX,
    ensures
        0 <= r.lo <= NUM_MAX + 1,
        -NUM_MAX <= r.hi <= NUM_MAX,
        forall|s: int| 0 <= s ==> (r.has(s) <==> axis_meets(g as int, v as int, w as int, s)),
{
    if v == 0 {
        assert forall|s: int| 0 <= s implies (axis_meets(g as int, v as int, w as int, s) <==> -w
            < g < w) by {
            assert(v * s == 0) by (nonlinear_arith)
                requires
                    v == 0,
            ;
        }
        if -w < g && g < w {
            Window { lo: 0, hi: 0, open_end: true }
        } else {
            Window { lo: 1, hi: 0, open_end: false }
        }
    } else {
        // Mirror the axis where the gap shrinks, so that it grows.
        let (gg, vv): (i64, i64) = if v < 0 {
            (-g, -v)
        } else {
            (g, v)
        };
        let q1: i64 = floor_div(-w - gg, vv);
        let q2: i64 = floor_div(w - gg - 1, vv);
        let lo: i64 = if q1 + 1 > 0 {
            q1 + 1
        } else {
            0
        };
        let r = Window { lo, hi: q2, open_end: false };
        proof {
            assert forall|s: int| 0 <= s implies (r.has(s) <==> axis_meets(
                g as int,
                v as int,
                w as int,
                s,
            )) by {
                assert(g + v * s == gg + vv * s || g + v * s == -(gg + vv * s)) by (nonlinear_arith)
                    requires
                        (gg == g && vv == v) || (gg == -g && vv == -v),
                ;
                lemma_threshold(vv as int, q1 as int, -w - gg, s);
                lemma_threshold(vv as int, q2 as int, w - gg - 1, s);
            }
        }
        r
    }
}

/// The first instant, counted from now, at which the overlap of two moving
/// hitboxes differs from `in_contact`: the instant at which a pair that is
/// apart begins to overlap, or at which a pair in contact stops. `None` where
/// that never happens.
pub fn next_change(a: &Hitbox, b: &Hitbox, in_contact: bool) -> (r: Option<u64>)
    requires
        a.wf(),
        b.wf(),
    ensures
        match r {
            Some(s) => is_first_change(*a, *b, in_contact, s as int) && s <= NUM_MAX + 1,
            None => never_changes(*a, *b, in_contact),
        },
{
    let wx = axis_window(
        2 * (a.value.pos.x - b.value.pos.x),
        2 * (a.vel.x - b.vel.x),
        a.value.shape.dims.x + b.value.shape.dims.x,
    );
    let wy = axis_window(
        2 * (a.value.pos.y - b.value.pos.y),
        2 * (a.vel.y - b.vel.y),
        a.value.shape.dims.y + b.value.shape.dims.y,
    );
    // The instants at which the shapes meet on both axes.
    let lo: i64 = if wx.lo >= wy.lo {
        wx.lo
    } else {
        wy.lo
    };
    let open_end = wx.open_end && wy.open_end;
    let hi: i64 = if wx.open_end {
        wy.hi
    } else if wy.open_end {
        wx.hi
    } else if wx.hi <= wy.hi {
        wx.hi
    } else {
        wy.hi
    };
    let both = Window { lo, hi, open_end };
    proof {
        assert forall|s: int| 0 <= s implies (both.has(s) <==> #[trigger] overlaps_after(
            *a,
            *b,
            s,
        )) by {
            assert(wx.has(s) <==> axis_meets(
                (2 * (a.value.pos.x - b.value.pos.x)) as int,
                (2 * (a.vel.x - b.vel.x)) as int,
                (a.value.shape.dims.x + b.value.shape.dims.x) as int,
                s,
            ));
            assert(wy.has(s) <==> axis_meets(
                (2 * (a.value.pos.y - b.value.pos.y)) as int,
                (2 * (a.vel.y - b.vel.y)) as int,
                (a.value.shape.dims.y + b.value.shape.dims.y) as int,
                s,
            ));
        }
    }
    let nonempty = open_end || lo <= hi;
    if !in_contact {
        if nonempty {
            assert(both.has(lo as int));
            Some(lo as u64)
        } else {
            None
        }
    } else if !nonempty || lo > 0 {
        assert(!both.has(0));
        Some(0)
    } else if open_end {
        None
    } else {
        assert(!both.has(hi + 1));
        Some((hi + 1) as u64)
    }
}

/// At this instant two well-formed hitboxes overlap exactly when their placed
/// shapes do.
pub proof fn lemma_overlaps_now(a: Hitbox, b: Hitbox)
    ensures
        overlaps_after(a, b, 0) == a.value.overlaps_spec(b.value),
        overlaps_after(a, b, 0) == overlaps_after(b, a, 0),
{
}

/// What is foreseen does not depend on when it is foreseen: two hitboxes that
/// have moved for `dt` time units overlap after `s` more exactly when, seen
/// from before the move, they overlap after `dt + s`.
pub proof fn lemma_overlap_foreseen(a: Hitbox, b: Hitbox, dt: int, s: int)
    requires
        a.stays_in_range(dt),
        b.stays_in_range(dt),
    ensures
        overlaps_after(a.advanced(dt), b.advanced(dt), s) == overlaps_after(a, b, dt + s),
{
    let (dvx, dvy) = (a.vel.x - b.vel.x, a.vel.y - b.vel.y);
    assert(2 * (a.vel.x * dt - b.vel.x * dt) + 2 * dvx * s == 2 * dvx * (dt + s)) by (nonlinear_arith)
        requires
            dvx == a.vel.x - b.vel.x,
    ;
    assert(2 * (a.vel.y * dt - b.vel.y * dt) + 2 * dvy * s == 2 * dvy * (dt + s)) by (nonlinear_arith)
        requires
            dvy == a.vel.y - b.vel.y,
    ;
}

} // verus!
