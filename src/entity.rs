use crate::components::{
    Collidable, Color, Damage, DamageType, Drawable, Expirable, Physicsable, PlayerControllable,
    Tag, TagType, Transform, Vulnerable,
};
use crate::geometry::{
    angle_to_vec, heading, polar, polar_point, rotated, rotation_transform, Point, COORD_LIMIT,
};
use crate::world::{Component, ComponentKind, World};
use vstd::prelude::*;

verus! {

/// Fixed-point units per pixel.
pub const PIXEL: i64 = 1000;

/// Lifetime of a projectile, in milliseconds.
pub const BULLET_LIFETIME: u64 = 3000;

/// Speed of a projectile per tick.
pub const BULLET_SPEED: i64 = 4 * PIXEL;

pub fn white() -> (r: Color)
    ensures
        r == (Color { r: 255, g: 255, b: 255 }),
{
    Color { r: 255, g: 255, b: 255 }
}

pub fn red() -> (r: Color)
    ensures
        r == (Color { r: 255, g: 0, b: 0 }),
{
    Color { r: 255, g: 0, b: 0 }
}

pub fn yellow() -> (r: Color)
    ensures
        r == (Color { r: 255, g: 255, b: 0 }),
{
    Color { r: 255, g: 255, b: 0 }
}

pub fn green() -> (r: Color)
    ensures
        r == (Color { r: 0, g: 255, b: 0 }),
{
    Color { r: 0, g: 255, b: 0 }
}

/// The identity of an entity.
pub type EntityId = u128;

/// Relies on uuid's `Uuid::new_v4` and `Uuid::as_u128`: a random version-4
/// identity as an integer. Nothing is promised of its value.
#[verifier::external_body]
pub(crate) fn random_entity_id() -> (r: EntityId) {
    uuid::Uuid::new_v4().as_u128()
}


/// Stores `component` for the entity `e` that is being built, keeping track
/// of the kinds it has been given since `start`.
fn attach<T: Component>(
    world: &mut World,
    e: &EntityId,
    component: T,
    Ghost(start): Ghost<World>,
    Ghost(kinds): Ghost<Set<ComponentKind>>,
)
    requires
        old(world).wf(),
        start.extended(old(world), *e, kinds),
    ensures
        final(world).wf(),
        start.extended(final(world), *e, kinds.insert(T::kind())),
        T::stored(final(world)) == T::stored(old(world)).insert(*e, component),
        old(world).unchanged_except(final(world), T::kind()),
        final(world).issued() == old(world).issued().insert(*e),
{
    let ghost before = *world;
    world.add(e, component);
    proof {
        T::lemma_inserted(&before, world, *e, component);
        World::lemma_extended_step(&start, &before, world, *e, kinds, T::kind());
    }
}

/// A store of another kind than `k` is untouched by a change to kind `k`.
proof fn lemma_kept<T: Component>(a: &World, b: &World, k: ComponentKind)
    requires
        a.unchanged_except(b, k),
        T::kind() != k,
    ensures
        T::stored(a) == T::stored(b),
{
    assert(a.kind_unchanged(b, T::kind()));
    T::lemma_framed(a, b);
}

/// The kinds of component that a ship is made of.
pub open spec fn ship_kinds() -> Set<ComponentKind> {
    set![
        ComponentKind::Collidable,
        ComponentKind::Drawable,
        ComponentKind::Physicsable,
        ComponentKind::PlayerControllable,
        ComponentKind::Vulnerable,
        ComponentKind::Transform,
        ComponentKind::Tag,
    ]
}

/// The kinds of component that a projectile is made of.
pub open spec fn bullet_kinds() -> Set<ComponentKind> {
    set![
        ComponentKind::Collidable,
        ComponentKind::Drawable,
        ComponentKind::Physicsable,
        ComponentKind::Expirable,
        ComponentKind::Damage,
        ComponentKind::Transform,
        ComponentKind::Tag,
    ]
}

/// The kinds of component that a shape is made of.
pub open spec fn shape_kinds() -> Set<ComponentKind> {
    set![
        ComponentKind::Collidable,
        ComponentKind::Drawable,
        ComponentKind::Physicsable,
        ComponentKind::Damage,
        ComponentKind::Vulnerable,
        ComponentKind::Transform,
        ComponentKind::Tag,
    ]
}

/// Where a new ship appears.
pub open spec fn spawn_transform() -> Transform {
    Transform { position: Point { x: 200000, y: 200000 }, rotation: 0 }
}

/// The outline of the ship: an arrow head 25 pixels wide and 30 high.
pub fn ship_points() -> (r: Vec<Point>)
    ensures
        r@ == seq![
            Point { x: 0, y: 30000 },
            Point { x: 12500, y: 0 },
            Point { x: 25000, y: 30000 },
            Point { x: 12500, y: 20000 },
        ],
{
    let w: i64 = 25000;
    let h: i64 = 30000;
    let notch: i64 = h - h / 3;
    vec![Point::new(0, h), Point::new(w / 2, 0), Point::new(w, h), Point::new(w / 2, notch)]
}

/// The outline of a projectile: a square of two pixels.
pub fn bullet_points() -> (r: Vec<Point>)
    ensures
        r@ == seq![
            Point { x: 0, y: 0 },
            Point { x: 2000, y: 0 },
            Point { x: 2000, y: 2000 },
            Point { x: 0, y: 2000 },
        ],
{
    vec![
        Point::new(0, 0),
        Point::new(2000, 0),
        Point::new(2000, 2000),
        Point::new(0, 2000),
    ]
}

/// The ship the player steers.
pub struct Ship;

impl Ship {
    /// Builds a ship at the spawn point and returns its new identity.
    pub fn create(world: &mut World) -> (r: EntityId)
        requires
            old(world).wf(),
        ensures
            final(world).wf(),
            !old(world).is_live(r),
            !old(world).issued().contains(r),
            final(world).issued() == old(world).issued().insert(r),
            old(world).extended(final(world), r, ship_kinds()),
            Tag::stored(final(world))[r] == (Tag { tag_type: TagType::Ship }),
            Transform::stored(final(world))[r] == spawn_transform(),
            Physicsable::stored(final(world))[r] == (Physicsable {
                velocity: Point { x: 0, y: 0 },
                acceleration: Point { x: 0, y: 0 },
            }),
            PlayerControllable::stored(final(world))[r] == (PlayerControllable { last_fired: None }),
            Vulnerable::stored(final(world))[r].damage_types@ == seq![DamageType::Smash],
    {
        let ghost start = *world;
        let entity = world.create_entity();
        let ghost mut ks: Set<ComponentKind> = Set::empty();
        proof {
            assert(start.extended(world, entity, Set::empty()));
        }
        let points = ship_points();
        attach(world, &entity, Collidable::new(ship_points()), Ghost(start), Ghost(ks));
        proof {
            ks = ks.insert(ComponentKind::Collidable);
        }
        attach(
            world,
            &entity,
            Drawable::new(points, white(), Point::new(12500, 15 * PIXEL)),
            Ghost(start), Ghost(ks));
        proof {
            ks = ks.insert(ComponentKind::Drawable);
        }
        let ghost w2 = *world;
        attach(
            world,
            &entity,
            Physicsable::new(0, 0),
            Ghost(start), Ghost(ks));
        let ghost w3 = *world;
        proof {
            ks = ks.insert(ComponentKind::Physicsable);
        }
        attach(
            world,
            &entity,
            PlayerControllable::new(),
            Ghost(start), Ghost(ks));
        let ghost w4 = *world;
        proof {
            ks = ks.insert(ComponentKind::PlayerControllable);
        }
        attach(
            world,
            &entity,
            Vulnerable::new(vec![DamageType::Smash]),
            Ghost(start), Ghost(ks));
        let ghost w5 = *world;
        proof {
            ks = ks.insert(ComponentKind::Vulnerable);
        }
        attach(
            world,
            &entity,
            Transform::new(200 * PIXEL, 200 * PIXEL),
            Ghost(start), Ghost(ks));
        proof {
            ks = ks.insert(ComponentKind::Transform);
        }
        let ghost mid = *world;
        attach(
            world,
            &entity,
            Tag::new(TagType::Ship),
            Ghost(start), Ghost(ks));
        proof {
            ks = ks.insert(ComponentKind::Tag);
        }
        proof {
            assert(mid.kind_unchanged(world, ComponentKind::Transform));
            Transform::lemma_framed(&mid, world);
            lemma_kept::<Physicsable>(&w3, &w4, ComponentKind::PlayerControllable);
            lemma_kept::<Physicsable>(&w4, &w5, ComponentKind::Vulnerable);
            lemma_kept::<Physicsable>(&w5, &mid, ComponentKind::Transform);
            lemma_kept::<Physicsable>(&mid, world, ComponentKind::Tag);
            lemma_kept::<PlayerControllable>(&w4, &w5, ComponentKind::Vulnerable);
            lemma_kept::<PlayerControllable>(&w5, &mid, ComponentKind::Transform);
            lemma_kept::<PlayerControllable>(&mid, world, ComponentKind::Tag);
            lemma_kept::<Vulnerable>(&w5, &mid, ComponentKind::Transform);
            lemma_kept::<Vulnerable>(&mid, world, ComponentKind::Tag);
            assert(ship_kinds() =~= ks);
        }
        entity
    }
}

/// A projectile.
pub struct Bullet;

impl Bullet {
    /// Builds a projectile at `(x, y)` flying along heading `angle`, created
    /// at time `now`, and returns its new identity.
    pub fn create(world: &mut World, x: i64, y: i64, angle: u32, now: u64) -> (r: EntityId)
        requires
            old(world).wf(),
        ensures
            final(world).wf(),
            !old(world).is_live(r),
            !old(world).issued().contains(r),
            final(world).issued() == old(world).issued().insert(r),
            old(world).extended(final(world), r, bullet_kinds()),
            Tag::stored(final(world))[r] == (Tag { tag_type: TagType::Bullet }),
            Transform::stored(final(world))[r] == (Transform { position: Point { x, y }, rotation: 0 }),
            Expirable::stored(final(world))[r] == (Expirable { created: now, expiration: BULLET_LIFETIME }),
            (Physicsable::stored(final(world))[r].velocity.x as int, Physicsable::stored(final(world))[r].velocity.y as int)
                == heading(angle as int, BULLET_SPEED as int),
    {
        let ghost start = *world;
        let entity = world.create_entity();
        let ghost mut ks: Set<ComponentKind> = Set::empty();
        proof {
            assert(start.extended(world, entity, Set::empty()));
        }
        let velocity = angle_to_vec(angle, BULLET_SPEED);
        attach(world, &entity, Collidable::new(bullet_points()), Ghost(start), Ghost(ks));
        proof {
            ks = ks.insert(ComponentKind::Collidable);
        }
        attach(
            world,
            &entity,
            Drawable::new(bullet_points(), white(), Point::new(PIXEL, PIXEL)),
            Ghost(start), Ghost(ks));
        proof {
            ks = ks.insert(ComponentKind::Drawable);
        }
        attach(
            world,
            &entity,
            Damage::new(DamageType::Projectile),
            Ghost(start), Ghost(ks));
        proof {
            ks = ks.insert(ComponentKind::Damage);
        }
        let ghost w3 = *world;
        attach(
            world,
            &entity,
            Physicsable::new(velocity.x, velocity.y),
            Ghost(start), Ghost(ks));
        proof {
            ks = ks.insert(ComponentKind::Physicsable);
        }
        let ghost w4 = *world;
        attach(
            world,
            &entity,
            Expirable::new(BULLET_LIFETIME, now),
            Ghost(start), Ghost(ks));
        proof {
            ks = ks.insert(ComponentKind::Expirable);
        }
        let ghost w5 = *world;
        attach(
            world,
            &entity,
            Transform::new(x, y),
            Ghost(start), Ghost(ks));
        proof {
            ks = ks.insert(ComponentKind::Transform);
        }
        let ghost w6 = *world;
        attach(
            world,
            &entity,
            Tag::new(TagType::Bullet),
            Ghost(start), Ghost(ks));
        proof {
            ks = ks.insert(ComponentKind::Tag);
        }
        proof {
            assert(w6.kind_unchanged(world, ComponentKind::Transform));
            Transform::lemma_framed(&w6, world);
            assert(w5.kind_unchanged(&w6, ComponentKind::Expirable));
            assert(w6.kind_unchanged(world, ComponentKind::Expirable));
            Expirable::lemma_framed(&w5, &w6);
            Expirable::lemma_framed(&w6, world);
            assert(w4.kind_unchanged(&w5, ComponentKind::Physicsable));
            assert(w5.kind_unchanged(&w6, ComponentKind::Physicsable));
            assert(w6.kind_unchanged(world, ComponentKind::Physicsable));
            Physicsable::lemma_framed(&w4, &w5);
            Physicsable::lemma_framed(&w5, &w6);
            Physicsable::lemma_framed(&w6, world);
            assert(bullet_kinds() =~= ks);
        }
        entity
    }
}


/// The vertex `i` of a regular polygon with `sides` sides and circumradius
/// `length`, turned by `rotation` degrees.
pub open spec fn polygon_vertex(sides: int, length: int, rotation: int, i: int) -> Point {
    let p = polar(length, (360int / sides) * i);
    let q = rotated(Point { x: p.0 as i64, y: p.1 as i64 }, rotation);
    Point { x: q.0 as i64, y: q.1 as i64 }
}

/// The closed outline of a regular polygon: `sides + 1` vertices, the last
/// one repeating the first direction.
pub fn polygon_points(sides: u32, length: i64, rotation: u32) -> (r: Vec<Point>)
    requires
        1 <= sides <= 360,
        0 <= length <= COORD_LIMIT,
    ensures
        r@.len() == sides + 1,
        forall|i: int|
            0 <= i <= sides ==> #[trigger] r@[i] == polygon_vertex(sides as int, length as int, rotation as int, i),
{
    let angle = 360 / sides;
    let mut out: Vec<Point> = Vec::new();
    let mut i: u32 = 0;
    while i <= sides
        invariant
            1 <= sides <= 360,
            0 <= length <= COORD_LIMIT,
            angle == 360u32 / sides,
            0 <= i <= sides + 1,
            out@.len() == i,
            forall|j: int|
                0 <= j < i ==> #[trigger] out@[j] == polygon_vertex(sides as int, length as int, rotation as int, j),
        decreases sides + 1 - i,
    {
        assert(angle * i <= 360) by (nonlinear_arith)
            requires angle == 360u32 / sides, i <= sides, 1 <= sides;
        let p = polar_point(length, angle * i);
        let q = rotation_transform(&p, rotation);
        out.push(q);
        i = i + 1;
    }
    out
}

pub fn octagon_points() -> (r: Vec<Point>)
    ensures
        r@.len() == 9,
{
    polygon_points(8, 25 * PIXEL, 70)
}

pub fn hexagon_points() -> (r: Vec<Point>)
    ensures
        r@.len() == 7,
{
    polygon_points(6, 20 * PIXEL, 60)
}

pub fn square_points() -> (r: Vec<Point>)
    ensures
        r@.len() == 5,
{
    polygon_points(4, 15 * PIXEL, 45)
}

/// A copy of `points`.
pub fn copy_points(points: &Vec<Point>) -> (r: Vec<Point>)
    ensures
        r@ == points@,
{
    let mut out: Vec<Point> = Vec::new();
    let mut i: usize = 0;
    while i < points.len()
        invariant
            0 <= i <= points@.len(),
            out@ == points@.subrange(0, i as int),
        decreases points@.len() - i,
    {
        out.push(points[i]);
        i = i + 1;
        assert(out@ =~= points@.subrange(0, i as int));
    }
    assert(out@ =~= points@);
    out
}

/// Builds a shape of the given `level` at `(x, y)` with outline `points`,
/// drifting one pixel per tick on each axis, and returns its new identity.
pub fn create_shape(
    world: &mut World,
    x: i64,
    y: i64,
    points: Vec<Point>,
    color: Color,
    offset: Point,
    level: u8,
) -> (r: EntityId)
    requires
        old(world).wf(),
    ensures
        final(world).wf(),
        !old(world).is_live(r),
            !old(world).issued().contains(r),
            final(world).issued() == old(world).issued().insert(r),
        old(world).extended(final(world), r, shape_kinds()),
        Tag::stored(final(world))[r] == (Tag { tag_type: TagType::Shape(level) }),
        Transform::stored(final(world))[r] == (Transform { position: Point { x, y }, rotation: 0 }),
        Collidable::stored(final(world))[r].bounds@ == points@,
{
    let ghost start = *world;
    let entity = world.create_entity();
    let ghost mut ks: Set<ComponentKind> = Set::empty();
    proof {
        assert(start.extended(world, entity, Set::empty()));
    }
    let outline = copy_points(&points);
    attach(world, &entity, Collidable::new(points), Ghost(start), Ghost(ks));
    proof {
        ks = ks.insert(ComponentKind::Collidable);
    }
    let ghost w1 = *world;
    attach(world, &entity, Drawable::new(outline, color, offset), Ghost(start), Ghost(ks));
    proof {
        ks = ks.insert(ComponentKind::Drawable);
    }
    let ghost w2 = *world;
    let mut physics = Physicsable::new(0, 0);
    physics.velocity = Point::new(PIXEL, PIXEL);
    attach(world, &entity, physics, Ghost(start), Ghost(ks));
    proof {
        ks = ks.insert(ComponentKind::Physicsable);
    }
    let ghost w3 = *world;
    attach(world, &entity, Damage::new(DamageType::Smash), Ghost(start), Ghost(ks));
    proof {
        ks = ks.insert(ComponentKind::Damage);
    }
    let ghost w4 = *world;
    attach(world, &entity, Vulnerable::new(vec![DamageType::Projectile]), Ghost(start), Ghost(ks));
    proof {
        ks = ks.insert(ComponentKind::Vulnerable);
    }
    let ghost w5 = *world;
    attach(world, &entity, Transform::new(x, y), Ghost(start), Ghost(ks));
    proof {
        ks = ks.insert(ComponentKind::Transform);
    }
    let ghost w6 = *world;
    attach(world, &entity, Tag::new(TagType::Shape(level)), Ghost(start), Ghost(ks));
    proof {
        ks = ks.insert(ComponentKind::Tag);
        assert(w6.kind_unchanged(world, ComponentKind::Transform));
        Transform::lemma_framed(&w6, world);
        assert(w1.kind_unchanged(&w2, ComponentKind::Collidable));
        assert(w2.kind_unchanged(&w3, ComponentKind::Collidable));
        assert(w3.kind_unchanged(&w4, ComponentKind::Collidable));
        assert(w4.kind_unchanged(&w5, ComponentKind::Collidable));
        assert(w5.kind_unchanged(&w6, ComponentKind::Collidable));
        assert(w6.kind_unchanged(world, ComponentKind::Collidable));
        Collidable::lemma_framed(&w1, &w2);
        Collidable::lemma_framed(&w2, &w3);
        Collidable::lemma_framed(&w3, &w4);
        Collidable::lemma_framed(&w4, &w5);
        Collidable::lemma_framed(&w5, &w6);
        Collidable::lemma_framed(&w6, world);
        assert(shape_kinds() =~= ks);
    }
    entity
}

/// The largest shape: an octagon of level 3.
pub struct Octagon;

impl Octagon {
    pub fn create(world: &mut World, x: i64, y: i64) -> (r: EntityId)
        requires
            old(world).wf(),
        ensures
            final(world).wf(),
            !old(world).is_live(r),
            !old(world).issued().contains(r),
            final(world).issued() == old(world).issued().insert(r),
            old(world).extended(final(world), r, shape_kinds()),
            Tag::stored(final(world))[r] == (Tag { tag_type: TagType::Shape(3) }),
            Transform::stored(final(world))[r] == (Transform { position: Point { x, y }, rotation: 0 }),
    {
        create_shape(world, x, y, octagon_points(), red(), Point::new(30180, 30180), 3)
    }
}

/// The middle shape: a hexagon of level 2.
pub struct Hexagon;

impl Hexagon {
    pub fn create(world: &mut World, x: i64, y: i64) -> (r: EntityId)
        requires
            old(world).wf(),
        ensures
            final(world).wf(),
            !old(world).is_live(r),
            !old(world).issued().contains(r),
            final(world).issued() == old(world).issued().insert(r),
            old(world).extended(final(world), r, shape_kinds()),
            Tag::stored(final(world))[r] == (Tag { tag_type: TagType::Shape(2) }),
            Transform::stored(final(world))[r] == (Transform { position: Point { x, y }, rotation: 0 }),
    {
        create_shape(world, x, y, hexagon_points(), yellow(), Point::new(17320, 17320), 2)
    }
}

/// The smallest shape: a square of level 1.
pub struct Square;

impl Square {
    pub fn create(world: &mut World, x: i64, y: i64) -> (r: EntityId)
        requires
            old(world).wf(),
        ensures
            final(world).wf(),
            !old(world).is_live(r),
            !old(world).issued().contains(r),
            final(world).issued() == old(world).issued().insert(r),
            old(world).extended(final(world), r, shape_kinds()),
            Tag::stored(final(world))[r] == (Tag { tag_type: TagType::Shape(1) }),
            Transform::stored(final(world))[r] == (Transform { position: Point { x, y }, rotation: 0 }),
    {
        create_shape(world, x, y, square_points(), green(), Point::new(7500, 7500), 1)
    }
}

/// Builds a shape of `level` at `position`: a square for level 1, a hexagon
/// for level 2, an octagon for level 3 and above; nothing for level 0.
pub fn build_shape(world: &mut World, level: u8, position: Point) -> (r: Option<EntityId>)
    requires
        old(world).wf(),
    ensures
        final(world).wf(),
        r.is_some() == (level >= 1),
        r.is_none() ==> *final(world) == *old(world),
        r matches Some(e) ==> {
            &&& !old(world).is_live(e)
            &&& !old(world).issued().contains(e)
            &&& final(world).issued() == old(world).issued().insert(e)
            &&& old(world).extended(final(world), e, shape_kinds())
            &&& Tag::stored(final(world))[e] == (Tag { tag_type: TagType::Shape(level) })
            &&& Transform::stored(final(world))[e] == (Transform { position, rotation: 0 })
        },
{
    match level {
        0 => None,
        1 => Some(Square::create(world, position.x, position.y)),
        2 => Some(Hexagon::create(world, position.x, position.y)),
        3 => Some(Octagon::create(world, position.x, position.y)),
        _ => Some(
            create_shape(
                world,
                position.x,
                position.y,
                octagon_points(),
                red(),
                Point::new(30180, 30180),
                level,
            ),
        ),
    }
}

} // verus!
