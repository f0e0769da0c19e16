//! Vectors, cardinal directions and placed rectangles, in exact integer
//! arithmetic.
//!
//! A shape is an axis-aligned rectangle given by its width and height. A placed
//! shape adds the position of its centre. Because a centre may lie half a unit
//! off an edge, every comparison of edges is made on doubled quantities.

use vstd::prelude::*;

verus! {

/// Number of fixed-point units in one world unit of length.
pub const SCALE: i64 = 1_000_000;

/// Largest magnitude of a coordinate of a placed shape's centre.
pub const POS_LIMIT: i64 = 1_000_000_000_000_000_000;

/// Largest width or height of a shape.
pub const DIM_MAX: i64 = 1_000_000_000_000_000;

/// Largest magnitude of a velocity component, in length units per time unit.
pub const VEL_MAX: i64 = 1_000_000_000;

/// The latest instant that a clock can show, and the longest time that a
/// hitbox can be moved at once.
pub const TIME_MAX: u64 = 1_000_000_000_000_000_000;

/// A 2-D Cartesian vector with integer coordinates.
#[derive(Clone, Copy, Debug, PartialEq, Eq, Structural)]
pub struct Vec2 {
    pub x: i64,
    pub y: i64,
}

/// Shorthand for building a `Vec2`.
pub fn v2(x: i64, y: i64) -> (r: Vec2)
    ensures
        r == (Vec2 { x, y }),
{
    Vec2 { x, y }
}

impl Vec2 {
    /// The (0, 0) vector.
    pub fn zero() -> (r: Vec2)
        ensures
            r == (Vec2 { x: 0, y: 0 }),
    {
        Vec2 { x: 0, y: 0 }
    }

    /// Whether both coordinates have magnitude at most `bound`.
    pub open spec fn within(self, bound: int) -> bool {
        -bound <= self.x <= bound && -bound <= self.y <= bound
    }

    /// The mathematical dot product.
    pub open spec fn dot(self, other: Vec2) -> int {
        self.x * other.x + self.y * other.y
    }

    /// Whether this vector is a valid velocity.
    pub open spec fn is_velocity(self) -> bool {
        self.within(VEL_MAX as int)
    }

    /// Executable test of `is_velocity`.
    pub fn is_valid_velocity(&self) -> (r: bool)
        ensures
            r == self.is_velocity(),
    {
        -VEL_MAX <= self.x && self.x <= VEL_MAX && -VEL_MAX <= self.y && self.y <= VEL_MAX
    }
}

/// The four cardinal directions.
#[derive(Clone, Copy, Debug, PartialEq, Eq, Structural)]
pub enum Card {
    MinusX,
    MinusY,
    PlusX,
    PlusY,
}

impl Card {
    /// The unit vector of the direction, as a mathematical pair.
    pub open spec fn unit_spec(self) -> Vec2 {
        match self {
            Card::MinusX => Vec2 { x: -1i64, y: 0 },
            Card::MinusY => Vec2 { x: 0, y: -1i64 },
            Card::PlusX => Vec2 { x: 1, y: 0 },
            Card::PlusY => Vec2 { x: 0, y: 1 },
        }
    }

    /// The opposite direction.
    pub open spec fn flip_spec(self) -> Card {
        match self {
            Card::MinusX => Card::PlusX,
            Card::MinusY => Card::PlusY,
            Card::PlusX => Card::MinusX,
            Card::PlusY => Card::MinusY,
        }
    }

    /// The unit vector that points in this direction.
    pub fn unit(self) -> (r: Vec2)
        ensures
            r == self.unit_spec(),
    {
        match self {
            Card::MinusX => Vec2 { x: -1, y: 0 },
            Card::MinusY => Vec2 { x: 0, y: -1 },
            Card::PlusX => Vec2 { x: 1, y: 0 },
            Card::PlusY => Vec2 { x: 0, y: 1 },
        }
    }

    /// The opposite direction.
    pub fn flip(self) -> (r: Card)
        ensures
            r == self.flip_spec(),
    {
        match self {
            Card::MinusX => Card::PlusX,
            Card::MinusY => Card::PlusY,
            Card::PlusX => Card::MinusX,
            Card::PlusY => Card::MinusY,
        }
    }
}

/// An axis-aligned rectangle, without any position.
#[derive(Clone, Copy, Debug, PartialEq, Eq, Structural)]
pub struct Shape {
    pub dims: Vec2,
}

impl Shape {
    /// A shape is well formed when its width and height are positive and at
    /// most `DIM_MAX`.
    pub open spec fn wf(self) -> bool {
        0 < self.dims.x <= DIM_MAX && 0 < self.dims.y <= DIM_MAX
    }

    /// Executable test of `wf`.
    pub fn is_valid(&self) -> (r: bool)
        ensures
            r == self.wf(),
    {
        0 < self.dims.x && self.dims.x <= DIM_MAX && 0 < self.dims.y && self.dims.y <= DIM_MAX
    }

    /// A rectangle with the given width and height.
    pub fn rect(dims: Vec2) -> (r: Shape)
        ensures
            r.dims == dims,
    {
        Shape { dims }
    }

    /// A square with the given width.
    pub fn square(width: i64) -> (r: Shape)
        ensures
            r.dims == (Vec2 { x: width, y: width }),
    {
        Shape { dims: Vec2 { x: width, y: width } }
    }

    /// The width and height.
    pub fn dims(&self) -> (r: Vec2)
        ensures
            r == self.dims,
    {
        self.dims
    }

    /// The shape with its centre at `pos`.
    pub fn place(self, pos: Vec2) -> (r: PlacedShape)
        ensures
            r == (PlacedShape { pos, shape: self }),
    {
        PlacedShape { pos, shape: self }
    }
}

/// A direction together with twice the overlap of two shapes along it.
///
/// The overlap along a direction is the distance that the first shape would
/// have to move in that direction to stop overlapping the second. It is
/// negative for shapes that are apart. It is kept doubled because it may be an
/// odd number of half units.
#[derive(Clone, Copy, Debug, PartialEq, Eq, Structural)]
pub struct Normal {
    pub card: Card,
    pub twice_len: i64,
}

impl Normal {
    /// The direction as a unit vector.
    pub fn dir(&self) -> (r: Vec2)
        ensures
            r == self.card.unit_spec(),
    {
        self.card.unit()
    }

    /// Twice the overlap along the direction.
    pub fn twice_len(&self) -> (r: i64)
        ensures
            r == self.twice_len,
    {
        self.twice_len
    }
}

/// A shape with the position of its centre.
#[derive(Clone, Copy, Debug, PartialEq, Eq, Structural)]
pub struct PlacedShape {
    pub pos: Vec2,
    pub shape: Shape,
}

impl PlacedShape {
    /// A placed shape is well formed when its shape is and its centre lies
    /// within `POS_LIMIT` of the origin on both axes.
    pub open spec fn wf(self) -> bool {
        self.shape.wf() && self.pos.within(POS_LIMIT as int)
    }

    /// Executable test of `wf`.
    pub fn is_valid(&self) -> (r: bool)
        ensures
            r == self.wf(),
    {
        self.shape.is_valid() && -POS_LIMIT <= self.pos.x && self.pos.x <= POS_LIMIT && -POS_LIMIT
            <= self.pos.y && self.pos.y <= POS_LIMIT
    }

    /// Twice the overlap of `self` with `src` along `card`: the doubled
    /// distance from the edge of `self` that faces against `card` to the edge
    /// of `src` that faces along it.
    pub open spec fn twice_overlap(self, src: PlacedShape, card: Card) -> int {
        match card {
            Card::MinusX => (2 * self.pos.x + self.shape.dims.x) - (2 * src.pos.x
                - src.shape.dims.x),
            Card::MinusY => (2 * self.pos.y + self.shape.dims.y) - (2 * src.pos.y
                - src.shape.dims.y),
            Card::PlusX => (2 * src.pos.x + src.shape.dims.x) - (2 * self.pos.x
                - self.shape.dims.x),
            Card::PlusY => (2 * src.pos.y + src.shape.dims.y) - (2 * self.pos.y
                - self.shape.dims.y),
        }
    }

    /// The direction of least overlap; among equals the first of `MinusX`,
    /// `MinusY`, `PlusX`, `PlusY`.
    pub open spec fn normal_card(self, other: PlacedShape) -> Card {
        let a = self.twice_overlap(other, Card::MinusX);
        let b = self.twice_overlap(other, Card::MinusY);
        let c = self.twice_overlap(other, Card::PlusX);
        let d = self.twice_overlap(other, Card::PlusY);
        if a <= b && a <= c && a <= d {
            Card::MinusX
        } else if b <= c && b <= d {
            Card::MinusY
        } else if c <= d {
            Card::PlusX
        } else {
            Card::PlusY
        }
    }

    /// The contact normal that points from `other` toward `self`.
    pub open spec fn normal_from_spec(self, other: PlacedShape) -> Normal {
        Normal {
            card: self.normal_card(other),
            twice_len: self.twice_overlap(other, self.normal_card(other)) as i64,
        }
    }

    /// Two shapes overlap when their interiors meet: the overlap is positive
    /// along every direction. Shapes that only touch do not overlap.
    pub open spec fn overlaps_spec(self, other: PlacedShape) -> bool {
        &&& self.twice_overlap(other, Card::MinusX) > 0
        &&& self.twice_overlap(other, Card::MinusY) > 0
        &&& self.twice_overlap(other, Card::PlusX) > 0
        &&& self.twice_overlap(other, Card::PlusY) > 0
    }

    /// Two placed shapes coincide when they are equal in position and size.
    /// No direction separates such a pair better than another.
    pub open spec fn coincides_spec(self, other: PlacedShape) -> bool {
        self == other
    }

    /// Whether the two shapes are equal in position and size.
    pub fn coincides(&self, other: &PlacedShape) -> (r: bool)
        ensures
            r == self.coincides_spec(*other),
    {
        *self == *other
    }

    /// The shape moved by `vel * elapsed`.
    pub open spec fn advanced(self, vel: Vec2, elapsed: int) -> PlacedShape {
        PlacedShape {
            pos: Vec2 {
                x: (self.pos.x + vel.x * elapsed) as i64,
                y: (self.pos.y + vel.y * elapsed) as i64,
            },
            shape: self.shape,
        }
    }

    /// Twice the overlap of `self` with `src` along `card`.
    pub fn twice_overlap_along(&self, src: &PlacedShape, card: Card) -> (r: i64)
        requires
            self.wf(),
            src.wf(),
        ensures
            r == self.twice_overlap(*src, card),
    {
        match card {
            Card::MinusX => (2 * self.pos.x + self.shape.dims.x) - (2 * src.pos.x
                - src.shape.dims.x),
            Card::MinusY => (2 * self.pos.y + self.shape.dims.y) - (2 * src.pos.y
                - src.shape.dims.y),
            Card::PlusX => (2 * src.pos.x + src.shape.dims.x) - (2 * self.pos.x
                - self.shape.dims.x),
            Card::PlusY => (2 * src.pos.y + src.shape.dims.y) - (2 * self.pos.y
                - self.shape.dims.y),
        }
    }

    /// Computes the contact normal that points from `other` toward `self`: the
    /// direction along which `self` leaves `other` by the shortest move, with
    /// twice the length of that move.
    pub fn normal_from(&self, other: &PlacedShape) -> (r: Normal)
        requires
            self.wf(),
            other.wf(),
        ensures
            r == self.normal_from_spec(*other),
    {
        let a: i64 = self.twice_overlap_along(other, Card::MinusX);
        let b: i64 = self.twice_overlap_along(other, Card::MinusY);
        let c: i64 = self.twice_overlap_along(other, Card::PlusX);
        let d: i64 = self.twice_overlap_along(other, Card::PlusY);
        if a <= b && a <= c && a <= d {
            Normal { card: Card::MinusX, twice_len: a }
        } else if b <= c && b <= d {
            Normal { card: Card::MinusY, twice_len: b }
        } else if c <= d {
            Normal { card: Card::PlusX, twice_len: c }
        } else {
            Normal { card: Card::PlusY, twice_len: d }
        }
    }

    /// Whether the interiors of the two shapes meet.
    pub fn overlaps(&self, other: &PlacedShape) -> (r: bool)
        requires
            self.wf(),
            other.wf(),
        ensures
            r == self.overlaps_spec(*other),
    {
        let n = self.normal_from(other);
        n.twice_len > 0
    }

    /// Attaches a velocity.
    pub fn moving(self, vel: Vec2) -> (r: Hitbox)
        ensures
            r == (Hitbox { value: self, vel }),
    {
        Hitbox { value: self, vel }
    }

    /// Attaches the zero velocity.
    pub fn still(self) -> (r: Hitbox)
        ensures
            r == (Hitbox { value: self, vel: Vec2 { x: 0, y: 0 } }),
    {
        Hitbox { value: self, vel: Vec2 { x: 0, y: 0 } }
    }
}

/// A placed shape with the velocity at which it moves.
#[derive(Clone, Copy, Debug, PartialEq, Eq, Structural)]
pub struct Hitbox {
    pub value: PlacedShape,
    pub vel: Vec2,
}

impl Hitbox {
    /// A hitbox is well formed when its placed shape is and its velocity is
    /// valid.
    pub open spec fn wf(self) -> bool {
        self.value.wf() && self.vel.is_velocity()
    }

    /// Executable test of `wf`.
    pub fn is_valid(&self) -> (r: bool)
        ensures
            r == self.wf(),
    {
        self.value.is_valid() && self.vel.is_valid_velocity()
    }

    /// Whether the centre is still within `POS_LIMIT` after moving at the
    /// velocity for `elapsed` time units.
    pub open spec fn stays_in_range(self, elapsed: int) -> bool {
        &&& -POS_LIMIT <= self.value.pos.x + self.vel.x * elapsed <= POS_LIMIT
        &&& -POS_LIMIT <= self.value.pos.y + self.vel.y * elapsed <= POS_LIMIT
    }

    /// The hitbox after moving at its velocity for `elapsed` time units.
    pub open spec fn advanced(self, elapsed: int) -> Hitbox {
        Hitbox { value: self.value.advanced(self.vel, elapsed), vel: self.vel }
    }

    /// Whether the hitbox can move at its velocity for `elapsed` time units
    /// and stay in range.
    pub fn can_advance(&self, elapsed: u64) -> (r: bool)
        requires
            self.wf(),
            elapsed <= TIME_MAX,
        ensures
            r == self.stays_in_range(elapsed as int),
    {
        let t: i128 = elapsed as i128;
        let vx: i128 = self.vel.x as i128;
        let vy: i128 = self.vel.y as i128;
        assert(-1_000_000_000_000_000_000_000_000_000 <= vx * t
            <= 1_000_000_000_000_000_000_000_000_000 && -1_000_000_000_000_000_000_000_000_000
            <= vy * t <= 1_000_000_000_000_000_000_000_000_000) by (nonlinear_arith)
            requires
                0 <= t <= 1_000_000_000_000_000_000,
                -1_000_000_000 <= vx <= 1_000_000_000,
                -1_000_000_000 <= vy <= 1_000_000_000,
        ;
        let x: i128 = self.value.pos.x as i128 + vx * t;
        let y: i128 = self.value.pos.y as i128 + vy * t;
        let limit: i128 = POS_LIMIT as i128;
        -limit <= x && x <= limit && -limit <= y && y <= limit
    }

    /// Projects the hitbox forward in time: the same shape and velocity, with
    /// the centre moved by the velocity times `elapsed`.
    pub fn advance(self, elapsed: u64) -> (r: Hitbox)
        requires
            self.wf(),
            elapsed <= TIME_MAX,
            self.stays_in_range(elapsed as int),
        ensures
            r == self.advanced(elapsed as int),
            r.wf(),
    {
        let t: i128 = elapsed as i128;
        let vx: i128 = self.vel.x as i128;
        let vy: i128 = self.vel.y as i128;
        assert(-1_000_000_000_000_000_000_000_000_000 <= vx * t
            <= 1_000_000_000_000_000_000_000_000_000 && -1_000_000_000_000_000_000_000_000_000
            <= vy * t <= 1_000_000_000_000_000_000_000_000_000) by (nonlinear_arith)
            requires
                0 <= t <= 1_000_000_000_000_000_000,
                -1_000_000_000 <= vx <= 1_000_000_000,
                -1_000_000_000 <= vy <= 1_000_000_000,
        ;
        let x: i128 = self.value.pos.x as i128 + vx * t;
        let y: i128 = self.value.pos.y as i128 + vy * t;
        Hitbox {
            value: PlacedShape { pos: Vec2 { x: x as i64, y: y as i64 }, shape: self.value.shape },
            vel: self.vel,
        }
    }
}

/// The direction of a contact normal has the least overlap of all four.
pub proof fn lemma_normal_is_least(a: PlacedShape, b: PlacedShape, card: Card)
    ensures
        a.twice_overlap(b, a.normal_card(b)) <= a.twice_overlap(b, card),
{
}

/// Overlap is symmetric.
pub proof fn lemma_overlap_symmetric(a: PlacedShape, b: PlacedShape)
    ensures
        a.overlaps_spec(b) == b.overlaps_spec(a),
{
}

/// The direction of a contact normal is a vector of length one.
pub proof fn lemma_direction_has_length_one(card: Card)
    ensures
        card.unit_spec().dot(card.unit_spec()) == 1,
        card.flip_spec().unit_spec().x == -card.unit_spec().x,
        card.flip_spec().unit_spec().y == -card.unit_spec().y,
{
    match card {
        Card::MinusX => {
            assert((-1i64) * (-1i64) + 0i64 * 0i64 == 1);
        },
        Card::MinusY => {
            assert(0i64 * 0i64 + (-1i64) * (-1i64) == 1);
        },
        Card::PlusX => {
            assert(1i64 * 1i64 + 0i64 * 0i64 == 1);
        },
        Card::PlusY => {
            assert(0i64 * 0i64 + 1i64 * 1i64 == 1);
        },
    }
}

/// The overlap of `a` with `b` along a direction is the overlap of `b` with
/// `a` along the opposite direction, so that the contact normal of `a` from
/// `b` and that of `b` from `a` have one length.
pub proof fn lemma_normal_from_both_sides(a: PlacedShape, b: PlacedShape, card: Card)
    ensures
        a.twice_overlap(b, card) == b.twice_overlap(a, card.flip_spec()),
        a.twice_overlap(b, a.normal_card(b)) == b.twice_overlap(a, b.normal_card(a)),
{
}

} // verus!
