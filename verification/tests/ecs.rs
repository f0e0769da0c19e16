use arena_physics::components::{BoxCollider, Motion, MovingBody, Position};
use arena_physics::geom::{v2, Shape, SCALE};
use arena_physics::systems::collision::CollisionSystem;
use arena_physics::systems::tick::TICK;
use specs::{
    Builder, Component, Join, ReadStorage, RunNow, System, VecStorage, World, WorldExt, Write,
    WriteStorage,
};

// The components of a game that keeps its positions in pixels and its
// velocities in pixels per second, at 60 ticks per second.

struct PixelPosition(f32, f32);

impl Component for PixelPosition {
    type Storage = VecStorage<Self>;
}

struct PixelMotion(f32, f32);

impl Component for PixelMotion {
    type Storage = VecStorage<Self>;
}

struct Collider(u64);

impl Component for Collider {
    type Storage = VecStorage<Self>;
}

fn length_to_units(pixels: f32) -> i64 {
    (pixels as f64 * SCALE as f64).round() as i64
}

fn length_from_units(units: i64) -> f32 {
    (units as f64 / SCALE as f64) as f32
}

fn speed_to_units(pixels_per_second: f32) -> i64 {
    (pixels_per_second as f64 * SCALE as f64 / (60.0 * TICK as f64)).round() as i64
}

fn speed_from_units(units: i64) -> f32 {
    (units as f64 * 60.0 * TICK as f64 / SCALE as f64) as f32
}

struct Collisions;

impl<'a> System<'a> for Collisions {
    type SystemData = (
        Write<'a, Option<CollisionSystem>>,
        WriteStorage<'a, PixelPosition>,
        WriteStorage<'a, PixelMotion>,
        ReadStorage<'a, Collider>,
    );

    fn run(&mut self, (mut system, mut pos, mut motion, collider): Self::SystemData) {
        let system = system.as_mut().unwrap();
        let mut bodies: Vec<MovingBody> = Vec::new();
        for (pos, motion, collider) in (&pos, (&motion).maybe(), &collider).join() {
            bodies.push(MovingBody {
                position: Position(v2(length_to_units(pos.0), length_to_units(pos.1))),
                motion: motion
                    .map(|m| Motion { velocity: v2(speed_to_units(m.0), speed_to_units(m.1)) }),
                collider: BoxCollider(collider.0),
            });
        }
        assert!(system.can_step(&bodies));
        let report = system.step(&mut bodies).unwrap();
        assert!(report.conditions().is_empty());
        for ((pos, motion, _), body) in
            (&mut pos, (&mut motion).maybe(), &collider).join().zip(bodies)
        {
            pos.0 = length_from_units(body.position.0.x);
            pos.1 = length_from_units(body.position.0.y);
            if let (Some(motion), Some(resolved)) = (motion, body.motion) {
                motion.0 = speed_from_units(resolved.velocity.x);
                motion.1 = speed_from_units(resolved.velocity.y);
            }
        }
    }
}

#[test]
fn a_walker_in_an_entity_world_is_stopped_by_a_wall() {
    let mut world = World::new();
    world.register::<PixelPosition>();
    world.register::<PixelMotion>();
    world.register::<Collider>();
    world.insert(Some(CollisionSystem::new()));

    // A walker of 30 x 20 pixels at 60 pixels per second, half a pixel off a
    // wall of 32 x 32 pixels on its right, and a bystander without motion.
    let walker = world
        .create_entity()
        .with(PixelPosition(100.0, 100.0))
        .with(PixelMotion(60.0, 30.0))
        .build();
    let wall = world.create_entity().with(PixelPosition(131.5, 100.0)).build();
    let bystander = world.create_entity().with(PixelPosition(0.0, 0.0)).build();
    {
        let mut system = world.fetch_mut::<Option<CollisionSystem>>();
        let system = system.as_mut().unwrap();
        let mut colliders = world.write_storage::<Collider>();
        let body = Shape::rect(v2(length_to_units(30.0), length_to_units(20.0)));
        let block = Shape::square(length_to_units(32.0));
        system.register_body(walker.id(), body, v2(100 * SCALE, 100 * SCALE), false).unwrap();
        system
            .register_body(wall.id(), block, v2(131 * SCALE + SCALE / 2, 100 * SCALE), true)
            .unwrap();
        system.register_body(bystander.id(), body, v2(0, 0), false).unwrap();
        for entity in [walker, wall, bystander] {
            colliders.insert(entity, Collider(entity.id() as u64)).unwrap();
        }
    }

    // One tick: a pixel of travel would end half a pixel inside the wall.
    Collisions.run_now(&world);
    {
        let pos = world.read_storage::<PixelPosition>();
        let motion = world.read_storage::<PixelMotion>();
        let walker_pos = pos.get(walker).unwrap();
        // The contact begins one instant after half a pixel of travel, and
        // the walker is pushed back by a hundredth of a pixel.
        assert!((walker_pos.0 - (100.5 + 0.001 - 0.01)).abs() < 1.0e-4);
        // Along the wall it slides on for the whole tick.
        assert!((walker_pos.1 - 100.5).abs() < 1.0e-4);
        let walker_motion = motion.get(walker).unwrap();
        assert_eq!(walker_motion.0, 0.0);
        assert_eq!(walker_motion.1, 30.0);
        let wall_pos = pos.get(wall).unwrap();
        assert_eq!((wall_pos.0, wall_pos.1), (131.5, 100.0));
        let bystander_pos = pos.get(bystander).unwrap();
        assert_eq!((bystander_pos.0, bystander_pos.1), (0.0, 0.0));
        assert!(motion.get(wall).is_none());
    }
    let system = world.fetch::<Option<CollisionSystem>>();
    let system = system.as_ref().unwrap();
    assert_eq!(system.tick(), 1);
    assert!(!system.collider().is_overlapping(walker.id() as u64, wall.id() as u64));
}
