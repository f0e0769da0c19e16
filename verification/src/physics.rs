//! The collision resolver: pushes a body out of a contact by a small fixed
//! step along the contact normal and lets it slide along the contact.

use vstd::prelude::*;
use crate::components::BoxCollider;
use crate::geom::{
    Card, Hitbox, PlacedShape, Vec2, lemma_normal_is_least, lemma_overlap_symmetric, v2, POS_LIMIT,
};
use crate::index::SpatialIndex;
use crate::state::{key, CollisionError, Entry, IndexState};
use crate::state_laws::{lemma_added, lemma_removed};

verus! {

/// The distance by which one resolution pushes a body along the contact
/// normal: a hundredth of a world unit.
pub const SMALL: i64 = 10_000;

/// The handle of a followed body: its identity, and whether it is a wall.
/// A wall is static: no resolution moves it.
#[derive(Clone, Copy, Debug, PartialEq, Eq, Structural)]
pub struct Profile {
    pub id: u32,
    pub wall: bool,
}

impl Profile {
    /// The identity under which the spatial index follows the body.
    pub open spec fn id_spec(self) -> u64 {
        self.id as u64
    }

    /// The identity under which the spatial index follows the body.
    pub fn id(&self) -> (r: u64)
        ensures
            r == self.id_spec(),
    {
        self.id as u64
    }
}

/// The vector `pos` moved by `dist` along `card`.
pub open spec fn pushed(pos: Vec2, card: Card, dist: int) -> Vec2 {
    Vec2 {
        x: (pos.x + card.unit_spec().x * dist) as i64,
        y: (pos.y + card.unit_spec().y * dist) as i64,
    }
}

/// The part of `vel` that is perpendicular to `card`: `vel` minus its
/// component along the direction.
pub open spec fn slide(vel: Vec2, card: Card) -> Vec2 {
    Vec2 {
        x: (vel.x - card.unit_spec().x * vel.dot(card.unit_spec())) as i64,
        y: (vel.y - card.unit_spec().y * vel.dot(card.unit_spec())) as i64,
    }
}

/// A body moved `dist` out of a contact along `card`, keeping only the part of
/// its velocity that slides along the contact.
pub open spec fn resolved(hb: Hitbox, card: Card, dist: int) -> Hitbox {
    Hitbox {
        value: PlacedShape { pos: pushed(hb.value.pos, card, dist), shape: hb.value.shape },
        vel: slide(hb.vel, card),
    }
}

/// A body after its contact with a wall was resolved: moved `SMALL` along
/// the contact normal, which points from the wall toward the body, and
/// sliding along the wall.
pub open spec fn resolve_wall_spec(entity_hb: Hitbox, wall_hb: Hitbox) -> Hitbox {
    resolved(entity_hb, entity_hb.value.normal_card(wall_hb.value), SMALL as int)
}

/// Two bodies after their contact was resolved: moved `SMALL` each along the
/// shared contact normal, the first with it and the second against it, and
/// each sliding along the contact.
pub open spec fn resolve_entity_spec(hb_1: Hitbox, hb_2: Hitbox) -> (Hitbox, Hitbox) {
    let card = hb_1.value.normal_card(hb_2.value);
    (resolved(hb_1, card, SMALL as int), resolved(hb_2, card, -(SMALL as int)))
}

/// The dot product of two vectors.
pub fn dot_product(a: Vec2, b: Vec2) -> (r: i128)
    requires
        a.within(POS_LIMIT as int),
        b.within(POS_LIMIT as int),
    ensures
        r == a.dot(b),
{
    let ax: i128 = a.x as i128;
    let ay: i128 = a.y as i128;
    let bx: i128 = b.x as i128;
    let by: i128 = b.y as i128;
    assert(-1_000_000_000_000_000_000_000_000_000_000_000_000 <= ax * bx
        <= 1_000_000_000_000_000_000_000_000_000_000_000_000) by (nonlinear_arith)
        requires
            -1_000_000_000_000_000_000 <= ax <= 1_000_000_000_000_000_000,
            -1_000_000_000_000_000_000 <= bx <= 1_000_000_000_000_000_000,
    ;
    assert(-1_000_000_000_000_000_000_000_000_000_000_000_000 <= ay * by
        <= 1_000_000_000_000_000_000_000_000_000_000_000_000) by (nonlinear_arith)
        requires
            -1_000_000_000_000_000_000 <= ay <= 1_000_000_000_000_000_000,
            -1_000_000_000_000_000_000 <= by <= 1_000_000_000_000_000_000,
    ;
    ax * bx + ay * by
}

/// `k`, its negation or zero, as `u` is 1, -1 or 0.
spec fn signed(k: int, u: int) -> int {
    if u == 0 {
        0
    } else if u == 1 {
        k
    } else {
        -k
    }
}

/// A product with 1, -1 or 0 is the other factor, its negation or zero.
proof fn lemma_times_unit(k: int, u: int)
    requires
        -1 <= u <= 1,
    ensures
        k * u == signed(k, u),
        u * k == signed(k, u),
{
    assert(k * u == signed(k, u) && u * k == signed(k, u)) by (nonlinear_arith)
        requires
            -1 <= u <= 1,
    ;
}

/// A product with a coordinate of a unit vector is the other factor, its
/// negation, or zero.
proof fn lemma_unit_products(card: Card, k: int)
    ensures
        card.unit_spec().x * k == (match card {
            Card::MinusX => -k,
            Card::PlusX => k,
            _ => 0,
        }),
        card.unit_spec().y * k == (match card {
            Card::MinusY => -k,
            Card::PlusY => k,
            _ => 0,
        }),
        k * card.unit_spec().x == card.unit_spec().x * k,
        k * card.unit_spec().y == card.unit_spec().y * k,
        k * (-card.unit_spec().x) == -(card.unit_spec().x * k),
{
    lemma_times_unit(k, card.unit_spec().x as int);
    lemma_times_unit(k, card.unit_spec().y as int);
    lemma_times_unit(k, -card.unit_spec().x);
}

/// The dot products of a vector with a unit vector and with its tangent pick
/// out one coordinate each.
proof fn lemma_dot_unit(v: Vec2, card: Card)
    ensures
        v.dot(card.unit_spec()) == (match card {
            Card::MinusX => -v.x,
            Card::MinusY => -v.y,
            Card::PlusX => v.x as int,
            Card::PlusY => v.y as int,
        }),
        v.dot(Vec2 { x: card.unit_spec().y, y: (-card.unit_spec().x) as i64 }) == (match card {
            Card::MinusX => v.y as int,
            Card::MinusY => -v.x,
            Card::PlusX => -v.y,
            Card::PlusY => v.x as int,
        }),
{
    let u = card.unit_spec();
    lemma_times_unit(v.x as int, u.x as int);
    lemma_times_unit(v.y as int, u.y as int);
    lemma_times_unit(v.x as int, u.y as int);
    lemma_times_unit(v.y as int, -u.x);
}

/// Sliding along a contact zeroes the velocity on the axis of the normal and
/// keeps it on the other axis.
pub proof fn lemma_slide_is_axis(vel: Vec2, card: Card)
    ensures
        slide(vel, card) == (match card {
            Card::MinusX | Card::PlusX => Vec2 { x: 0, y: vel.y },
            Card::MinusY | Card::PlusY => Vec2 { x: vel.x, y: 0 },
        }),
{
    lemma_dot_unit(vel, card);
    lemma_unit_products(card, vel.dot(card.unit_spec()));
}

/// Moves a hitbox `dist` along `dir` and projects its velocity onto the
/// tangent of `dir`.
fn push_and_slide(hb: Hitbox, card: Card, dist: i64) -> (r: Hitbox)
    requires
        hb.wf(),
        -SMALL <= dist <= SMALL,
    ensures
        r == resolved(hb, card, dist as int),
{
    let dir = card.unit();
    let b = v2(dir.y, -dir.x);
    let along: i128 = dot_product(hb.vel, b);
    proof {
        lemma_unit_products(card, dist as int);
        lemma_slide_is_axis(hb.vel, card);
        lemma_dot_unit(hb.vel, card);
        lemma_times_unit(along as int, b.x as int);
        lemma_times_unit(along as int, b.y as int);
    }
    // Place the body outside of the contact along the normal.
    let new_pos = v2(hb.value.pos.x + dir.x * dist, hb.value.pos.y + dir.y * dist);
    // Project the velocity onto the orthogonal of the normal, which cancels
    // the movement along the normal.
    let new_vel = v2((along * (b.x as i128)) as i64, (along * (b.y as i128)) as i64);
    hb.value.shape.place(new_pos).moving(new_vel)
}

/// Resolves the contact of a body with a wall. The wall stays. The body moves
/// `SMALL` along the contact normal, which points from the wall toward the
/// body, and keeps only the part of its velocity that slides along the wall.
pub fn resolve_wall_collision(entity_hb: Hitbox, wall_hb: Hitbox) -> (r: Hitbox)
    requires
        entity_hb.wf(),
        wall_hb.wf(),
    ensures
        r == resolve_wall_spec(entity_hb, wall_hb),
        r.value.shape == entity_hb.value.shape,
        r.value.twice_overlap(wall_hb.value, entity_hb.value.normal_card(wall_hb.value))
            == entity_hb.value.twice_overlap(
            wall_hb.value,
            entity_hb.value.normal_card(wall_hb.value),
        ) - 2 * SMALL,
        r.vel.dot(entity_hb.value.normal_card(wall_hb.value).unit_spec()) == 0,
{
    let normal = entity_hb.value.normal_from(&wall_hb.value);
    proof {
        lemma_wall_resolution_separates(entity_hb, wall_hb);
        lemma_wall_resolution_slides(entity_hb, wall_hb);
    }
    push_and_slide(entity_hb, normal.card, SMALL)
}

/// Resolves the contact of two bodies. Both move `SMALL` apart along the
/// shared contact normal, and each keeps only the part of its own velocity
/// that slides along the contact.
pub fn resolve_entity_collision(hb_1: Hitbox, hb_2: Hitbox) -> (r: (Hitbox, Hitbox))
    requires
        hb_1.wf(),
        hb_2.wf(),
    ensures
        r == resolve_entity_spec(hb_1, hb_2),
        r.0.value.shape == hb_1.value.shape,
        r.1.value.shape == hb_2.value.shape,
        r.0.value.twice_overlap(r.1.value, hb_1.value.normal_card(hb_2.value))
            == hb_1.value.twice_overlap(hb_2.value, hb_1.value.normal_card(hb_2.value)) - 4
            * SMALL,
        r.0.vel.dot(hb_1.value.normal_card(hb_2.value).unit_spec()) == 0,
        r.1.vel.dot(hb_1.value.normal_card(hb_2.value).unit_spec()) == 0,
        r.0.value.overlaps_spec(r.1.value) <==> hb_1.value.normal_from_spec(
            hb_2.value,
        ).twice_len > 4 * SMALL,
{
    let normal = hb_1.value.normal_from(&hb_2.value);
    proof {
        lemma_entity_resolution_separates(hb_1, hb_2);
    }
    (push_and_slide(hb_1, normal.card, SMALL), push_and_slide(hb_2, normal.card, -SMALL))
}

/// A resolved hitbox keeps its shape and a valid velocity, and its centre
/// moves by the length of the push along one axis.
pub proof fn lemma_resolved_stays_valid(hb: Hitbox, card: Card, dist: int, bound: int)
    requires
        hb.wf(),
        -SMALL <= dist <= SMALL,
        hb.value.pos.within(POS_LIMIT - SMALL),
    ensures
        resolved(hb, card, dist).wf(),
        hb.value.pos.within(bound) ==> resolved(hb, card, dist).value.pos.within(bound + SMALL),
{
    lemma_unit_products(card, dist);
    lemma_slide_is_axis(hb.vel, card);
}

/// Starts to follow an entity in the spatial index and returns the collider
/// under which it is followed. An identity that is already in use is refused
/// and the index stays as it was.
pub fn add_box_collider(id: u32, hitbox: Hitbox, wall: bool, collider: &mut SpatialIndex) -> (r:
    Result<BoxCollider, CollisionError>)
    requires
        old(collider).wf(),
        (Entry { profile: Profile { id, wall }, hitbox }).wf(),
    ensures
        final(collider).wf(),
        match r {
            Ok(c) => {
                &&& c.0 == id
                &&& !old(collider)@.contains(id as u64)
                &&& final(collider)@ == old(collider)@.added(Profile { id, wall }, hitbox)
            },
            Err(e) => {
                &&& e == CollisionError::DuplicateBodyId
                &&& old(collider)@.contains(id as u64)
                &&& final(collider)@ == old(collider)@
            },
        },
{
    let profile = Profile { id, wall };
    match collider.add_hitbox(profile, hitbox) {
        Ok(_) => Ok(BoxCollider(profile.id())),
        Err(e) => Err(e),
    }
}

/// The state of the index after the body `entity` was resolved against
/// `wall`: the body leaves the index and comes back with its resolved hitbox.
pub open spec fn wall_handled(s: IndexState, entity: Profile, wall: Profile) -> IndexState {
    s.removed(entity.id_spec()).added(
        entity,
        resolve_wall_spec(s.entry(entity.id_spec()).hitbox, s.entry(wall.id_spec()).hitbox),
    )
}

/// Whether the index can resolve `entity` against `wall`: both are followed,
/// `entity` is no wall, and there is room to push it.
pub open spec fn can_handle_wall(s: IndexState, entity: Profile, wall: Profile) -> bool {
    &&& s.contains(entity.id_spec())
    &&& s.contains(wall.id_spec())
    &&& !entity.wall
    &&& s.entry(entity.id_spec()).hitbox.value.pos.within(POS_LIMIT - SMALL)
}

/// The state of the index after the contact of two bodies was resolved: both
/// leave the index and come back with their resolved hitboxes.
pub open spec fn entities_handled(s: IndexState, p_1: Profile, p_2: Profile) -> IndexState {
    let r = resolve_entity_spec(s.entry(p_1.id_spec()).hitbox, s.entry(p_2.id_spec()).hitbox);
    s.removed(p_1.id_spec()).removed(p_2.id_spec()).added(p_1, r.0).added(p_2, r.1)
}

/// Whether the index can resolve the contact of two bodies: both are
/// followed, they are not one body, neither is a wall, and there is room to
/// push each.
pub open spec fn can_handle_entities(s: IndexState, p_1: Profile, p_2: Profile) -> bool {
    &&& s.contains(p_1.id_spec())
    &&& s.contains(p_2.id_spec())
    &&& p_1.id_spec() != p_2.id_spec()
    &&& !p_1.wall
    &&& !p_2.wall
    &&& s.entry(p_1.id_spec()).hitbox.value.pos.within(POS_LIMIT - SMALL)
    &&& s.entry(p_2.id_spec()).hitbox.value.pos.within(POS_LIMIT - SMALL)
}

/// Resolves the contact of two bodies inside the index: both are replaced by
/// their resolved hitboxes. Returns, for each of the two, the handles of the
/// bodies that it is now in contact with. The two themselves are in contact
/// afterwards only where their contact was more than `2 * SMALL` deep.
pub fn handle_entity_collision(p_1: Profile, p_2: Profile, collider: &mut SpatialIndex) -> (r: (
    Vec<Profile>,
    Vec<Profile>,
))
    requires
        old(collider).wf(),
        can_handle_entities(old(collider)@, p_1, p_2),
    ensures
        final(collider).wf(),
        final(collider)@ == entities_handled(old(collider)@, p_1, p_2),
        r.0@ == final(collider)@.partners(p_1.id_spec()),
        r.1@ == final(collider)@.partners(p_2.id_spec()),
        forall|k: int| 0 <= k < r.0@.len() ==> final(collider)@.follows(#[trigger] r.0@[k]),
        forall|k: int| 0 <= k < r.1@.len() ==> final(collider)@.follows(#[trigger] r.1@[k]),
        final(collider)@.in_contact(p_1.id_spec(), p_2.id_spec()) <==> old(collider)@.entry(
            p_1.id_spec(),
        ).hitbox.value.normal_from_spec(
            old(collider)@.entry(p_2.id_spec()).hitbox.value,
        ).twice_len > 4 * SMALL,
{
    let ghost s = collider@;
    let hb_1 = collider.get_hitbox(p_1.id()).unwrap();
    let hb_2 = collider.get_hitbox(p_2.id()).unwrap();
    proof {
        let card = hb_1.value.normal_card(hb_2.value);
        lemma_removed(s, p_1.id_spec());
        lemma_removed(s.removed(p_1.id_spec()), p_2.id_spec());
        lemma_resolved_stays_valid(hb_1, card, SMALL as int, POS_LIMIT as int);
        lemma_resolved_stays_valid(hb_2, card, -(SMALL as int), POS_LIMIT as int);
        lemma_added(
            s.removed(p_1.id_spec()).removed(p_2.id_spec()),
            p_1,
            resolve_entity_spec(hb_1, hb_2).0,
        );
        lemma_resolved_pair_is_apart(s, p_1, p_2);
    }
    let _ = collider.remove_hitbox(p_1.id());
    let _ = collider.remove_hitbox(p_2.id());

    let (r_1, r_2) = resolve_entity_collision(hb_1, hb_2);

    let _ = collider.add_hitbox(p_1, r_1);
    let _ = collider.add_hitbox(p_2, r_2);

    let first = collider.get_overlaps(p_1.id());
    let second = collider.get_overlaps(p_2.id());
    (first, second)
}

/// Resolves the contact of a body with a wall inside the index: the body is
/// replaced by its resolved hitbox. Returns the handles of the bodies that the
/// resolved body is now in contact with.
pub fn handle_wall_collision(entity: Profile, wall: Profile, collider: &mut SpatialIndex) -> (r:
    Vec<Profile>)
    requires
        old(collider).wf(),
        can_handle_wall(old(collider)@, entity, wall),
    ensures
        final(collider).wf(),
        final(collider)@ == wall_handled(old(collider)@, entity, wall),
        r@ == final(collider)@.partners(entity.id_spec()),
        forall|k: int| 0 <= k < r@.len() ==> final(collider)@.follows(#[trigger] r@[k]),
{
    // Get hitboxes
    let entity_hb = collider.get_hitbox(entity.id()).unwrap();
    let wall_hb = collider.get_hitbox(wall.id()).unwrap();
    // Get new resolved hitbox
    let resolved_hb = resolve_wall_collision(entity_hb, wall_hb);
    proof {
        lemma_unit_products(entity_hb.value.normal_card(wall_hb.value), SMALL as int);
        lemma_slide_is_axis(entity_hb.vel, entity_hb.value.normal_card(wall_hb.value));
        lemma_removed(collider@, entity.id_spec());
    }
    // Apply new hitbox
    let _ = collider.remove_hitbox(entity.id());
    // Get new collisions
    collider.add_hitbox(entity, resolved_hb).unwrap()
}

/// A wall resolution moves the body by exactly `SMALL` along the contact
/// normal, away from the wall. The overlap along the normal shrinks by
/// `SMALL`, and the depth of the contact, which is the least overlap over all
/// directions, strictly shrinks: no resolution increases an overlap. The body
/// overlaps the wall afterwards only where the contact was more than `SMALL`
/// deep.
pub proof fn lemma_wall_resolution_separates(entity_hb: Hitbox, wall_hb: Hitbox)
    requires
        entity_hb.wf(),
        wall_hb.wf(),
    ensures
        ({
            let card = entity_hb.value.normal_card(wall_hb.value);
            let unit = card.unit_spec();
            let r = resolve_wall_spec(entity_hb, wall_hb);
            &&& (r.value.pos.x - entity_hb.value.pos.x) * unit.x + (r.value.pos.y
                - entity_hb.value.pos.y) * unit.y == SMALL
            &&& r.value.twice_overlap(wall_hb.value, card) == entity_hb.value.twice_overlap(
                wall_hb.value,
                card,
            ) - 2 * SMALL
            &&& r.value.normal_from_spec(wall_hb.value).twice_len
                < entity_hb.value.normal_from_spec(wall_hb.value).twice_len
            &&& r.value.shape == entity_hb.value.shape
            &&& r.value.overlaps_spec(wall_hb.value) <==> entity_hb.value.normal_from_spec(
                wall_hb.value,
            ).twice_len > 2 * SMALL
        }),
{
    let card = entity_hb.value.normal_card(wall_hb.value);
    lemma_normal_is_least(entity_hb.value, wall_hb.value, Card::MinusX);
    lemma_normal_is_least(entity_hb.value, wall_hb.value, Card::MinusY);
    lemma_normal_is_least(entity_hb.value, wall_hb.value, Card::PlusX);
    lemma_normal_is_least(entity_hb.value, wall_hb.value, Card::PlusY);
    lemma_unit_products(card, SMALL as int);
    let r = resolve_wall_spec(entity_hb, wall_hb);
    lemma_unit_products(card, r.value.pos.x - entity_hb.value.pos.x);
    lemma_unit_products(card, r.value.pos.y - entity_hb.value.pos.y);
    lemma_normal_is_least(r.value, wall_hb.value, card);
}

/// After a wall resolution the velocity of the body has no component along
/// the contact normal, and its component along the wall is what it was.
pub proof fn lemma_wall_resolution_slides(entity_hb: Hitbox, wall_hb: Hitbox)
    ensures
        ({
            let unit = entity_hb.value.normal_card(wall_hb.value).unit_spec();
            let tangent = Vec2 { x: unit.y, y: (-unit.x) as i64 };
            let r = resolve_wall_spec(entity_hb, wall_hb);
            &&& r.vel.dot(unit) == 0
            &&& r.vel.dot(tangent) == entity_hb.vel.dot(tangent)
        }),
{
    let card = entity_hb.value.normal_card(wall_hb.value);
    lemma_slide_is_axis(entity_hb.vel, card);
    lemma_dot_unit(entity_hb.vel, card);
    lemma_dot_unit(slide(entity_hb.vel, card), card);
}

/// A resolution of two bodies moves them `2 * SMALL` apart along the shared
/// normal, and leaves neither with a velocity component along it. Afterwards
/// the two overlap no longer, unless the contact was more than `2 * SMALL`
/// deep: such a contact is `2 * SMALL` less deep than it was.
pub proof fn lemma_entity_resolution_separates(hb_1: Hitbox, hb_2: Hitbox)
    requires
        hb_1.wf(),
        hb_2.wf(),
    ensures
        ({
            let card = hb_1.value.normal_card(hb_2.value);
            let unit = card.unit_spec();
            let (r_1, r_2) = resolve_entity_spec(hb_1, hb_2);
            &&& r_1.value.twice_overlap(r_2.value, card) == hb_1.value.twice_overlap(
                hb_2.value,
                card,
            ) - 4 * SMALL
            &&& r_1.vel.dot(unit) == 0
            &&& r_2.vel.dot(unit) == 0
            &&& r_1.value.shape == hb_1.value.shape
            &&& r_2.value.shape == hb_2.value.shape
            &&& r_1.value.overlaps_spec(r_2.value) <==> hb_1.value.normal_from_spec(
                hb_2.value,
            ).twice_len > 4 * SMALL
        }),
{
    let card = hb_1.value.normal_card(hb_2.value);
    lemma_normal_is_least(hb_1.value, hb_2.value, Card::MinusX);
    lemma_normal_is_least(hb_1.value, hb_2.value, Card::MinusY);
    lemma_normal_is_least(hb_1.value, hb_2.value, Card::PlusX);
    lemma_normal_is_least(hb_1.value, hb_2.value, Card::PlusY);
    lemma_unit_products(card, SMALL as int);
    lemma_unit_products(card, -(SMALL as int));
    lemma_slide_is_axis(hb_1.vel, card);
    lemma_slide_is_axis(hb_2.vel, card);
    lemma_dot_unit(slide(hb_1.vel, card), card);
    lemma_dot_unit(slide(hb_2.vel, card), card);
}

/// After the contact of two bodies was resolved in the index, the two are no
/// longer in contact, unless the contact was more than `2 * SMALL` deep: then
/// one resolution does not part them and they are in contact still.
pub proof fn lemma_resolved_pair_is_apart(s: IndexState, p_1: Profile, p_2: Profile)
    requires
        s.wf(),
        can_handle_entities(s, p_1, p_2),
    ensures
        entities_handled(s, p_1, p_2).in_contact(p_1.id_spec(), p_2.id_spec()) <==> s.entry(
            p_1.id_spec(),
        ).hitbox.value.normal_from_spec(s.entry(p_2.id_spec()).hitbox.value).twice_len > 4
            * SMALL,
        entities_handled(s, p_1, p_2).in_contact(p_2.id_spec(), p_1.id_spec())
            == entities_handled(s, p_1, p_2).in_contact(p_1.id_spec(), p_2.id_spec()),
{
    let (id_1, id_2) = (p_1.id_spec(), p_2.id_spec());
    let (hb_1, hb_2) = (s.entry(id_1).hitbox, s.entry(id_2).hitbox);
    let r = resolve_entity_spec(hb_1, hb_2);
    let card = hb_1.value.normal_card(hb_2.value);
    let s1 = s.removed(id_1);
    let s2 = s1.removed(id_2);
    let s3 = s2.added(p_1, r.0);
    let t = s3.added(p_2, r.1);
    assert(s.bodies[s.position(id_1)].wf());
    assert(s.bodies[s.position(id_2)].wf());
    lemma_resolved_stays_valid(hb_1, card, SMALL as int, POS_LIMIT as int);
    lemma_resolved_stays_valid(hb_2, card, -(SMALL as int), POS_LIMIT as int);
    lemma_removed(s, id_1);
    lemma_removed(s1, id_2);
    lemma_added(s2, p_1, r.0);
    lemma_added(s3, p_2, r.1);
    lemma_entity_resolution_separates(hb_1, hb_2);
    lemma_overlap_symmetric(r.0.value, r.1.value);
    let k = s2.bodies.len() as int;
    assert(s3.bodies[k].id() == id_1);
    assert(s3.bodies[k].hitbox == r.0);
    assert(t.in_contact(id_2, s3.bodies[k].id()) <==> r.1.value.overlaps_spec(r.0.value));
    assert(key(id_1, id_2) == key(id_2, id_1));
}

} // verus!
