use shape_battle::components::{
    Collidable, Collision, Damage, DamageType, Damaged, Expirable, Physicsable,
    PlayerControllable, Tag, TagType, Transform, Vulnerable,
};
use shape_battle::entity::{build_shape, polygon_points, Octagon, Ship, Square};
use shape_battle::game::GameState;
use shape_battle::geometry::{angle_to_vec, rotation_transform, sine_of, cosine_of, Point};
use shape_battle::systems::collision::{get_translated_bounds, overlaps, CollisionSystem};
use shape_battle::systems::damage::{is_damaged_by, DamageSystem};
use shape_battle::systems::expiration::{should_keep, ExpirationSystem};
use shape_battle::systems::physics::{
    clamp_velocity, handle_acceleration, handle_velocity, wrap_coordinate, PhysicsSystem,
    MAX_VELOCITY,
};
use shape_battle::systems::player_input::{
    accelerate, apply_inputs_to, decelerate, handle_fire, turn_left, turn_right, KeyState,
    PlayerInputSystem,
};
use shape_battle::systems::shape_manager::{split_shape, ShapeManager};
use shape_battle::systems::ship_manager::ShipManager;
use shape_battle::world::World;

fn square(size: i64) -> Vec<Point> {
    vec![
        Point::new(0, 0),
        Point::new(size, 0),
        Point::new(size, size),
        Point::new(0, size),
    ]
}

fn placed(points: &Vec<Point>, x: i64, y: i64) -> Vec<Point> {
    points.iter().map(|p| Point::new(p.x + x, p.y + y)).collect()
}

#[test]
fn trig_tables_give_known_values() {
    assert_eq!(sine_of(30), 5000);
    assert_eq!(sine_of(90), 10000);
    assert_eq!(sine_of(270), -10000);
    assert_eq!(cosine_of(0), 10000);
    assert_eq!(cosine_of(180), -10000);
    assert_eq!(sine_of(390), 5000);
}

#[test]
fn rotating_a_quarter_turn() {
    let p = rotation_transform(&Point::new(1000, 0), 90);
    assert_eq!(p, Point::new(0, 1000));
    let q = rotation_transform(&Point::new(1000, 500), 180);
    assert_eq!(q, Point::new(-1000, -500));
}

#[test]
fn heading_vectors_point_up_at_zero() {
    assert_eq!(angle_to_vec(0, 4000), Point::new(0, -4000));
    assert_eq!(angle_to_vec(90, 4000), Point::new(4000, 0));
}

#[test]
fn overlap_is_symmetric() {
    let a = square(2);
    let b = placed(&square(2), 1, 1);
    let c = placed(&square(2), 5, 5);
    assert_eq!(overlaps(&a, &b), overlaps(&b, &a));
    assert_eq!(overlaps(&a, &c), overlaps(&c, &a));
    assert!(overlaps(&a, &b));
    assert!(!overlaps(&a, &c));
}

#[test]
fn touching_squares_collide_and_separated_ones_do_not() {
    let a = square(2);
    let touching = placed(&square(2), 2, 0);
    assert!(overlaps(&a, &touching));
    let corner = placed(&square(2), 2, 2);
    assert!(overlaps(&a, &corner));
    let apart = placed(&square(2), 3, 0);
    assert!(!overlaps(&a, &apart));
}

#[test]
fn empty_outline_overlaps_nothing() {
    let a: Vec<Point> = vec![];
    assert!(!overlaps(&a, &square(2)));
    assert!(!overlaps(&square(2), &a));
}

#[test]
fn bounds_are_translated_then_rotated() {
    let mut world = World::new();
    let e = world.create_entity();
    world.add(&e, Collidable::new(vec![Point::new(1000, 0)]));
    let mut t = Transform::new(1000, 0);
    t.rotation = 90;
    world.add(&e, t);
    let bounds = get_translated_bounds(&world, &e).unwrap();
    assert_eq!(bounds, vec![Point::new(0, 2000)]);

    let lone = world.create_entity();
    world.add(&lone, Collidable::new(square(2)));
    assert!(get_translated_bounds(&world, &lone).is_none());
}

fn collidable_at(world: &mut World, x: i64, y: i64) -> u128 {
    let e = world.create_entity();
    world.add(&e, Collidable::new(square(2)));
    world.add(&e, Transform::new(x, y));
    e
}

#[test]
fn collision_pass_records_each_overlapping_pair_once() {
    let mut world = World::new();
    let a = collidable_at(&mut world, 0, 0);
    let b = collidable_at(&mut world, 2, 0);
    let _far = collidable_at(&mut world, 100, 100);
    CollisionSystem::update(&mut world);
    let collisions = world.components::<Collision>();
    assert_eq!(collisions.len(), 1);
    let c = collisions[0];
    assert!((c.entity1 == a && c.entity2 == b) || (c.entity1 == b && c.entity2 == a));
}

#[test]
fn collision_pass_clears_last_ticks_signals() {
    let mut world = World::new();
    collidable_at(&mut world, 0, 0);
    collidable_at(&mut world, 1, 1);
    CollisionSystem::update(&mut world);
    assert_eq!(world.components::<Collision>().len(), 1);
    CollisionSystem::update(&mut world);
    assert_eq!(world.components::<Collision>().len(), 1);
}

#[test]
fn no_collisions_with_fewer_than_two_collidables() {
    let mut world = World::new();
    CollisionSystem::update(&mut world);
    assert!(world.components::<Collision>().is_empty());
    collidable_at(&mut world, 0, 0);
    CollisionSystem::update(&mut world);
    assert!(world.components::<Collision>().is_empty());
}

#[test]
fn one_tick_of_collision_and_damage_marks_only_the_vulnerable_entity() {
    let mut world = World::new();
    let a = world.create_entity();
    world.add(&a, Collidable::new(square(2)));
    world.add(&a, Transform::new(0, 0));
    world.add(&a, Damage::new(DamageType::Projectile));
    let b = world.create_entity();
    world.add(&b, Collidable::new(square(2)));
    world.add(&b, Transform::new(1, 1));
    world.add(&b, Vulnerable::new(vec![DamageType::Projectile]));

    CollisionSystem::update(&mut world);
    DamageSystem::update(&mut world);

    let damaged = world.components::<Damaged>();
    assert_eq!(damaged.len(), 1);
    assert_eq!(damaged[0].entity, b);
    assert!(damaged.iter().all(|d| d.entity != a));
}

#[test]
fn damage_needs_a_matching_kind() {
    let mut world = World::new();
    let a = world.create_entity();
    world.add(&a, Damage::new(DamageType::Smash));
    let b = world.create_entity();
    world.add(&b, Vulnerable::new(vec![DamageType::Projectile]));
    assert!(!is_damaged_by(&world, &b, &a));
    world.add(&b, Vulnerable::new(vec![DamageType::Projectile, DamageType::Smash]));
    assert!(is_damaged_by(&world, &b, &a));
    assert!(!is_damaged_by(&world, &a, &b));
}

#[test]
fn mutual_damage_marks_both() {
    let mut world = World::new();
    let a = collidable_at(&mut world, 0, 0);
    world.add(&a, Damage::new(DamageType::Smash));
    world.add(&a, Vulnerable::new(vec![DamageType::Projectile]));
    let b = collidable_at(&mut world, 1, 0);
    world.add(&b, Damage::new(DamageType::Projectile));
    world.add(&b, Vulnerable::new(vec![DamageType::Smash]));
    CollisionSystem::update(&mut world);
    DamageSystem::update(&mut world);
    let marked: Vec<u128> = world.components::<Damaged>().iter().map(|d| d.entity).collect();
    assert_eq!(marked.len(), 2);
    assert!(marked.contains(&a) && marked.contains(&b));
}

#[test]
fn speed_is_clamped_over_many_ticks() {
    let mut p = Physicsable::new(0, 0);
    p.acceleration = Point::new(3000, 4000);
    for _ in 0..20 {
        p = handle_acceleration(p);
        let v = p.velocity;
        assert!(v.x * v.x + v.y * v.y <= MAX_VELOCITY * MAX_VELOCITY);
    }
    assert_eq!(p.velocity, Point::new(3000, 4000));
}

#[test]
fn clamping_keeps_slow_velocities_and_rescales_fast_ones() {
    assert_eq!(clamp_velocity(Point::new(3000, -4000)), Point::new(3000, -4000));
    assert_eq!(clamp_velocity(Point::new(6000, 8000)), Point::new(3000, 4000));
    assert_eq!(clamp_velocity(Point::new(-10000, 0)), Point::new(-5000, 0));
    let big = clamp_velocity(Point::new(i64::MAX, i64::MIN));
    assert!(big.x * big.x + big.y * big.y <= MAX_VELOCITY * MAX_VELOCITY);
}

#[test]
fn positions_wrap_around_the_screen() {
    assert_eq!(wrap_coordinate(800, 800), 0);
    assert_eq!(wrap_coordinate(801, 800), 1);
    assert_eq!(wrap_coordinate(-5, 800), 795);
    assert_eq!(wrap_coordinate(400, 800), 400);
    assert_eq!(wrap_coordinate(0, 800), 0);
}

#[test]
fn motion_moves_then_wraps() {
    let t = Transform::new(790, 10);
    let moved = handle_velocity(t, Point::new(20, -30), 800, 600);
    assert_eq!(moved.position, Point::new(10, 580));
}

#[test]
fn physics_pass_updates_velocity_and_position() {
    let mut world = World::new();
    let e = world.create_entity();
    let mut p = Physicsable::new(100, 0);
    p.acceleration = Point::new(10, 20);
    world.add(&e, p);
    world.add(&e, Transform::new(1000, 1000));
    let still = world.create_entity();
    world.add(&still, Transform::new(5, 5));
    PhysicsSystem::update(&mut world, 800000, 600000);
    assert_eq!(world.get::<Physicsable>(&e).unwrap().velocity, Point::new(110, 20));
    assert_eq!(world.get::<Transform>(&e).unwrap().position, Point::new(1110, 1020));
    assert_eq!(world.get::<Transform>(&still).unwrap().position, Point::new(5, 5));
}

#[test]
fn expiration_keeps_until_the_lifetime_is_over() {
    let mut world = World::new();
    let e = world.create_entity();
    world.add(&e, Expirable::new(3000, 1000));
    world.add(&e, Transform::new(0, 0));
    let forever = world.create_entity();
    world.add(&forever, Transform::new(0, 0));

    assert!(should_keep(&world, &e, 3999));
    assert!(!should_keep(&world, &e, 4001));

    ExpirationSystem::update(&mut world, 3999);
    assert!(world.get::<Transform>(&e).is_some());
    ExpirationSystem::update(&mut world, 4000);
    assert!(world.get::<Transform>(&e).is_some());
    ExpirationSystem::update(&mut world, 4001);
    assert!(world.get::<Transform>(&e).is_none());
    assert!(world.get::<Expirable>(&e).is_none());
    assert!(world.get::<Transform>(&forever).is_some());
}

#[test]
fn expirable_reports_expiry() {
    let x = Expirable::new(3000, 1000);
    assert!(!x.is_expired(1000));
    assert!(!x.is_expired(4000));
    assert!(x.is_expired(4001));
    assert!(!x.is_expired(500));
}

#[test]
fn damaged_large_shape_splits_into_one_smaller_shape() {
    let mut world = World::new();
    let big = Octagon::create(&mut world, 100, 200);
    let spawned = split_shape(&mut world, &big).unwrap();
    assert!(world.get::<Tag>(&big).is_none());
    assert!(world.get::<Transform>(&big).is_none());
    assert_eq!(world.get::<Tag>(&spawned).unwrap().tag_type, TagType::Shape(2));
    assert_eq!(world.get::<Transform>(&spawned).unwrap().position, Point::new(100, 200));
    assert_eq!(world.entities::<Tag>(), vec![spawned]);
}

#[test]
fn damaged_smallest_shape_is_destroyed_without_a_spawn() {
    let mut world = World::new();
    let small = Square::create(&mut world, 5, 5);
    assert!(split_shape(&mut world, &small).is_none());
    assert!(world.entities::<Tag>().is_empty());
    assert!(world.entities::<Transform>().is_empty());
}

#[test]
fn shape_manager_splits_each_damaged_shape_once() {
    let mut world = World::new();
    let big = Octagon::create(&mut world, 10, 20);
    let untouched = Octagon::create(&mut world, 50, 50);
    for _ in 0..2 {
        let signal = world.create_entity();
        world.add(&signal, Damaged::new(big));
    }
    let spawned = ShapeManager::update(&mut world);
    assert_eq!(spawned.len(), 1);
    assert_eq!(spawned[0].0, big);
    assert!(world.get::<Tag>(&big).is_none());
    assert_eq!(world.get::<Tag>(&spawned[0].1).unwrap().tag_type, TagType::Shape(2));
    assert_eq!(world.get::<Transform>(&spawned[0].1).unwrap().position, Point::new(10, 20));
    assert_eq!(world.get::<Tag>(&untouched).unwrap().tag_type, TagType::Shape(3));
}

#[test]
fn build_shape_picks_the_level() {
    let mut world = World::new();
    assert!(build_shape(&mut world, 0, Point::new(0, 0)).is_none());
    let s = build_shape(&mut world, 1, Point::new(1, 2)).unwrap();
    assert_eq!(world.get::<Tag>(&s).unwrap().tag_type, TagType::Shape(1));
    assert_eq!(world.get::<Collidable>(&s).unwrap().bounds.len(), 5);
    let h = build_shape(&mut world, 2, Point::new(1, 2)).unwrap();
    assert_eq!(world.get::<Collidable>(&h).unwrap().bounds.len(), 7);
}

#[test]
fn regular_polygon_vertices() {
    let square = polygon_points(4, 1000, 0);
    assert_eq!(
        square,
        vec![
            Point::new(1000, 0),
            Point::new(0, 1000),
            Point::new(-1000, 0),
            Point::new(0, -1000),
            Point::new(1000, 0),
        ]
    );
}

#[test]
fn damaged_ship_is_replaced_by_exactly_one_new_ship() {
    let mut world = World::new();
    let ship = Ship::create(&mut world);
    for _ in 0..2 {
        let signal = world.create_entity();
        world.add(&signal, Damaged::new(ship));
    }
    let fresh = ShipManager::update(&mut world).unwrap();
    assert_ne!(fresh, ship);
    assert!(world.get::<Tag>(&ship).is_none());
    let ships: Vec<&Tag> = world.components::<Tag>();
    assert_eq!(ships.len(), 1);
    assert_eq!(world.get::<Transform>(&fresh).unwrap().position, Point::new(200000, 200000));
}

#[test]
fn ship_manager_does_nothing_without_damage() {
    let mut world = World::new();
    let ship = Ship::create(&mut world);
    assert!(ShipManager::update(&mut world).is_none());
    assert!(world.get::<Tag>(&ship).is_some());
}

#[test]
fn turning_wraps_the_heading() {
    let mut t = Transform::new(0, 0);
    turn_left(&mut t);
    assert_eq!(t.rotation, 357);
    turn_right(&mut t);
    turn_right(&mut t);
    assert_eq!(t.rotation, 3);
    t.rotation = 359;
    turn_right(&mut t);
    assert_eq!(t.rotation, 2);
}

#[test]
fn thrust_follows_heading_and_release_zeroes_acceleration() {
    let mut p = Physicsable::new(0, 0);
    accelerate(&mut p, 90);
    assert_eq!(p.acceleration, Point::new(10, 0));
    accelerate(&mut p, 0);
    assert_eq!(p.acceleration, Point::new(10, -10));
    decelerate(&mut p);
    assert_eq!(p.acceleration, Point::new(0, 0));
}

#[test]
fn inputs_turn_and_thrust_the_ship() {
    let mut world = World::new();
    let ship = Ship::create(&mut world);
    let keys = KeyState { left: false, right: true, thrust: true, fire: false };
    apply_inputs_to(&mut world, &ship, keys);
    assert_eq!(world.get::<Transform>(&ship).unwrap().rotation, 3);
    let push = angle_to_vec(3, 10);
    assert_eq!(world.get::<Physicsable>(&ship).unwrap().acceleration, push);
}

#[test]
fn firing_respects_the_cooldown() {
    let mut world = World::new();
    let ship = Ship::create(&mut world);
    assert!(handle_fire(&mut world, &ship, false, 10000).is_none());
    let bullet = handle_fire(&mut world, &ship, true, 10000).unwrap();
    assert_eq!(world.get::<Tag>(&bullet).unwrap().tag_type, TagType::Bullet);
    assert_eq!(world.get::<Transform>(&bullet).unwrap().position, Point::new(200000, 200000));
    assert_eq!(world.get::<PlayerControllable>(&ship).unwrap().last_fired, Some(10000));
    assert!(handle_fire(&mut world, &ship, true, 10500).is_none());
    assert!(handle_fire(&mut world, &ship, true, 11000).is_none());
    assert!(handle_fire(&mut world, &ship, true, 11001).is_some());
}

#[test]
fn input_pass_spawns_projectiles() {
    let mut world = World::new();
    Ship::create(&mut world);
    let keys = KeyState { left: false, right: false, thrust: false, fire: true };
    let bullets = PlayerInputSystem::update(&mut world, keys, 5000);
    assert_eq!(bullets.len(), 1);
    assert_eq!(world.get::<Expirable>(&bullets[0].1).unwrap().expiration, 3000);
}

#[test]
fn a_tick_runs_the_whole_pipeline() {
    let mut game = GameState::new();
    Octagon::create(&mut game.world, 100000, 100000);
    Ship::create(&mut game.world);
    let keys = KeyState { left: false, right: false, thrust: true, fire: true };
    game.update(keys, 1000, 800000, 600000);
    assert_eq!(game.world.entities::<PlayerControllable>().len(), 1);
    assert_eq!(game.world.entities::<Expirable>().len(), 1);
    assert!(game.world.components::<Damaged>().is_empty());
}

#[test]
fn draw_list_holds_placed_drawables_only() {
    let mut world = World::new();
    let ship = Ship::create(&mut world);
    let hidden = world.create_entity();
    world.add(&hidden, Transform::new(0, 0));
    let listed = shape_battle::systems::draw::DrawSystem::update(&world);
    assert_eq!(listed, vec![ship]);
}

#[test]
fn shape_manager_destroys_the_smallest_shape_without_a_spawn() {
    let mut world = World::new();
    let small = Square::create(&mut world, 10, 20);
    let signal = world.create_entity();
    world.add(&signal, Damaged::new(small));
    let spawned = ShapeManager::update(&mut world);
    assert!(spawned.is_empty());
    assert!(world.get::<Tag>(&small).is_none());
    assert!(world.get::<Transform>(&small).is_none());
    assert!(world.entities::<Tag>().is_empty());
}

#[test]
fn fired_projectile_flies_along_the_heading() {
    let mut world = World::new();
    let ship = Ship::create(&mut world);
    world.get_mut::<Transform>(&ship).unwrap().rotation = 90;
    let bullet = handle_fire(&mut world, &ship, true, 10000).unwrap();
    assert_eq!(world.get::<Physicsable>(&bullet).unwrap().velocity, Point::new(4000, 0));
    assert_eq!(world.get::<Transform>(&bullet).unwrap().rotation, 0);
    assert_eq!(world.get::<Expirable>(&bullet).unwrap().created, 10000);
}

#[test]
fn new_ship_has_its_starting_components() {
    let mut world = World::new();
    let ship = Ship::create(&mut world);
    assert_eq!(world.get::<Physicsable>(&ship).unwrap().velocity, Point::new(0, 0));
    assert_eq!(world.get::<PlayerControllable>(&ship).unwrap().last_fired, None);
    assert_eq!(world.get::<Vulnerable>(&ship).unwrap().damage_types, vec![DamageType::Smash]);
}

#[test]
fn input_pass_steers_every_controllable_entity() {
    let mut world = World::new();
    let ship = Ship::create(&mut world);
    let other = world.create_entity();
    world.add(&other, Transform::new(7, 7));
    let keys = KeyState { left: true, right: false, thrust: false, fire: false };
    let fired = PlayerInputSystem::update(&mut world, keys, 0);
    assert!(fired.is_empty());
    assert_eq!(world.get::<Transform>(&ship).unwrap().rotation, 357);
    assert_eq!(world.get::<Transform>(&other).unwrap().rotation, 0);
}
