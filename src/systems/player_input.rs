use crate::components::{elapsed, Physicsable, PlayerControllable, Transform};
use crate::components::{Expirable, Tag, TagType};
use crate::entity::{bullet_kinds, Bullet, EntityId, BULLET_LIFETIME, BULLET_SPEED};
use crate::geometry::{angle_to_vec, heading, Point};
use crate::systems::physics::saturated;
use crate::systems::shape_manager::{born_of, lemma_push_to_set, spawned_set, split_sources};
use crate::world::lemma_remove_keys_twice;
use crate::world::{Component, ComponentKind, World};
use vstd::prelude::*;

verus! {

/// Degrees turned per tick while a turn key is held.
pub const ROTATION_SPEED: u32 = 3;

/// Acceleration added per tick while thrusting (a hundredth of a pixel).
pub const THRUST: i64 = 10;

/// Milliseconds that must pass between two shots.
pub const FIRE_COOLDOWN: u64 = 1000;

/// Which of the player's keys are held during this tick.
#[derive(Clone, Copy, Debug, PartialEq, Eq, Structural)]
pub struct KeyState {
    pub left: bool,
    pub right: bool,
    pub thrust: bool,
    pub fire: bool,
}

/// Heading `rotation` turned left by one step, in `[0, 360)`.
pub open spec fn turned_left(rotation: u32) -> u32 {
    ((rotation % 360 + 360 - ROTATION_SPEED) % 360) as u32
}

/// Heading `rotation` turned right by one step, in `[0, 360)`.
pub open spec fn turned_right(rotation: u32) -> u32 {
    ((rotation % 360 + ROTATION_SPEED) % 360) as u32
}

/// Heading `rotation` after the turn keys of `keys`: left first, then right.
pub open spec fn steered(rotation: u32, keys: KeyState) -> u32 {
    let after_left = if keys.left {
        turned_left(rotation)
    } else {
        rotation
    };
    if keys.right {
        turned_right(after_left)
    } else {
        after_left
    }
}

/// Physics after the thrust key: thrust along `rotation` added to the
/// acceleration (saturating) while held, acceleration zero otherwise.
pub open spec fn thrusted(p: Physicsable, rotation: u32, keys: KeyState) -> Physicsable {
    if keys.thrust {
        let push = heading(rotation as int, THRUST as int);
        Physicsable {
            velocity: p.velocity,
            acceleration: Point {
                x: saturated(p.acceleration.x + push.0) as i64,
                y: saturated(p.acceleration.y + push.1) as i64,
            },
        }
    } else {
        Physicsable { velocity: p.velocity, acceleration: Point { x: 0, y: 0 } }
    }
}

/// A shot is allowed at `now` given the time of the last one.
pub open spec fn cooldown_over(last_fired: Option<u64>, now: u64) -> bool {
    match last_fired {
        None => true,
        Some(t) => elapsed(t, now) > FIRE_COOLDOWN,
    }
}

/// Turns `transform` left by one step.
pub fn turn_left(transform: &mut Transform)
    ensures
        *final(transform) == (Transform { rotation: turned_left(old(transform).rotation), ..*old(transform) }),
{
    transform.rotation = (transform.rotation % 360 + 360 - ROTATION_SPEED) % 360;
}

/// Turns `transform` right by one step.
pub fn turn_right(transform: &mut Transform)
    ensures
        *final(transform) == (Transform { rotation: turned_right(old(transform).rotation), ..*old(transform) }),
{
    transform.rotation = (transform.rotation % 360 + ROTATION_SPEED) % 360;
}

/// Adds thrust along heading `rotation` to the acceleration.
pub fn accelerate(physics: &mut Physicsable, rotation: u32)
    ensures
        *final(physics) == thrusted(*old(physics), rotation, KeyState { left: false, right: false, thrust: true, fire: false }),
{
    let push = angle_to_vec(rotation, THRUST);
    let ax = physics.acceleration.x as i128 + push.x as i128;
    let ay = physics.acceleration.y as i128 + push.y as i128;
    let x: i64 = if ax > i64::MAX as i128 {
        i64::MAX
    } else if ax < i64::MIN as i128 {
        i64::MIN
    } else {
        ax as i64
    };
    let y: i64 = if ay > i64::MAX as i128 {
        i64::MAX
    } else if ay < i64::MIN as i128 {
        i64::MIN
    } else {
        ay as i64
    };
    physics.acceleration = Point { x, y };
}

/// Drops the acceleration to zero.
pub fn decelerate(physics: &mut Physicsable)
    ensures
        *final(physics) == (Physicsable { velocity: old(physics).velocity, acceleration: Point { x: 0, y: 0 } }),
{
    physics.acceleration = Point { x: 0, y: 0 };
}

/// Applies the turn and thrust keys to `entity`: its heading turns, and its
/// acceleration follows the new heading (or drops to zero).
pub fn apply_inputs_to(world: &mut World, entity: &EntityId, keys: KeyState)
    requires
        old(world).wf(),
    ensures
        final(world).wf(),
        final(world).issued() == old(world).issued(),
        forall|k: ComponentKind|
            k != ComponentKind::Physicsable && k != ComponentKind::Transform ==> #[trigger] old(world).kind_unchanged(final(world), k),
        Transform::stored(final(world)) == if Transform::stored(old(world)).contains_key(*entity) {
            Transform::stored(old(world)).insert(
                *entity,
                Transform {
                    rotation: steered(Transform::stored(old(world))[*entity].rotation, keys),
                    ..Transform::stored(old(world))[*entity]
                },
            )
        } else {
            Transform::stored(old(world))
        },
        Physicsable::stored(final(world)) == if Physicsable::stored(old(world)).contains_key(*entity) {
            Physicsable::stored(old(world)).insert(
                *entity,
                thrusted(
                    Physicsable::stored(old(world))[*entity],
                    if Transform::stored(old(world)).contains_key(*entity) {
                        steered(Transform::stored(old(world))[*entity].rotation, keys)
                    } else {
                        0
                    },
                    keys,
                ),
            )
        } else {
            Physicsable::stored(old(world))
        },
{
    let ghost w0 = *world;
    proof {
        w0.lemma_kind_unchanged_refl();
        w0.lemma_live_issued();
        Transform::lemma_stored(&w0);
        Physicsable::lemma_stored(&w0);
        if Transform::stored(&w0).contains_key(*entity) {
            assert(w0.has(ComponentKind::Transform, *entity));
            assert(w0.is_live(*entity));
            assert(w0.issued().insert(*entity) =~= w0.issued());
        }
        if Physicsable::stored(&w0).contains_key(*entity) {
            assert(w0.has(ComponentKind::Physicsable, *entity));
            assert(w0.is_live(*entity));
            assert(w0.issued().insert(*entity) =~= w0.issued());
        }
    }
    let current = match world.get::<Transform>(entity) {
        Some(t) => Some(*t),
        None => None,
    };
    let rotation = match current {
        Some(t) => {
            let mut t = t;
            if keys.left {
                turn_left(&mut t);
            }
            if keys.right {
                turn_right(&mut t);
            }
            world.add(entity, t);
            t.rotation
        },
        None => 0,
    };
    let ghost w1 = *world;
    proof {
        assert(w0.kind_unchanged(&w1, ComponentKind::Physicsable));
        Physicsable::lemma_framed(&w0, &w1);
        if current.is_none() {
            assert(w1 == w0);
        }
    }
    let physics = match world.get::<Physicsable>(entity) {
        Some(p) => Some(*p),
        None => None,
    };
    if let Some(p) = physics {
        let mut p = p;
        if keys.thrust {
            accelerate(&mut p, rotation);
        } else {
            decelerate(&mut p);
        }
        world.add(entity, p);
        proof {
            assert(w1.kind_unchanged(world, ComponentKind::Transform));
            Transform::lemma_framed(&w1, world);
        }
    }
    proof {
        w1.lemma_kind_unchanged_refl();
        assert forall|k: ComponentKind|
            k != ComponentKind::Physicsable && k != ComponentKind::Transform implies #[trigger] w0.kind_unchanged(world, k) by {
            assert(w0.kind_unchanged(&w1, k));
            assert(w1.kind_unchanged(world, k));
            World::lemma_kind_unchanged_trans(&w0, &w1, world, k);
        }
    }
}

/// `entity` may fire now: the fire key is held, it is controllable, and
/// its cooldown is over.
pub open spec fn can_fire(w: &World, entity: EntityId, fire: bool, now: u64) -> bool {
    &&& fire
    &&& PlayerControllable::stored(w).contains_key(entity)
    &&& cooldown_over(PlayerControllable::stored(w)[entity].last_fired, now)
}

/// Where `e` stands in `w`: its `Transform`, or the origin at heading 0.
pub open spec fn aim(w: &World, e: EntityId) -> Transform {
    if Transform::stored(w).contains_key(e) {
        Transform::stored(w)[e]
    } else {
        Transform { position: Point { x: 0, y: 0 }, rotation: 0 }
    }
}

/// `b` is a new projectile in `after`, shot by `shooter` of `before` at
/// `now`: at its position, flying along its heading.
pub open spec fn is_projectile_from(before: &World, after: &World, shooter: EntityId, b: EntityId, now: u64) -> bool {
    &&& !before.issued().contains(b)
    &&& projectile_at(after, b, aim(before, shooter), now)
}

/// `b` is a projectile of `w` made at `now` at the position of `from`,
/// flying along its heading.
pub open spec fn projectile_at(w: &World, b: EntityId, from: Transform, now: u64) -> bool {
    &&& forall|k: ComponentKind| #[trigger] w.has(k, b) == bullet_kinds().contains(k)
    &&& Tag::stored(w)[b] == (Tag { tag_type: TagType::Bullet })
    &&& Transform::stored(w)[b] == (Transform { position: from.position, rotation: 0 })
    &&& Expirable::stored(w)[b] == (Expirable { created: now, expiration: BULLET_LIFETIME })
    &&& (Physicsable::stored(w)[b].velocity.x as int, Physicsable::stored(w)[b].velocity.y as int) == heading(
        from.rotation as int,
        BULLET_SPEED as int,
    )
}

/// When `entity` may fire, records `now` as its last shot and spawns a
/// projectile at its position along its heading (the origin and heading 0
/// when it has no `Transform`), which is returned. Otherwise nothing changes.
pub fn handle_fire(world: &mut World, entity: &EntityId, fire: bool, now: u64) -> (r: Option<EntityId>)
    requires
        old(world).wf(),
    ensures
        final(world).wf(),
        r.is_some() == can_fire(old(world), *entity, fire, now),
        r.is_none() ==> *final(world) == *old(world),
        r matches Some(b) ==> {
            &&& !old(world).is_live(b)
            &&& b != *entity
            &&& PlayerControllable::stored(final(world)) == PlayerControllable::stored(old(world)).insert(
                *entity,
                PlayerControllable { last_fired: Some(now) },
            )
            &&& forall|k: ComponentKind| #[trigger] final(world).has(k, b) == bullet_kinds().contains(k)
            &&& forall|k: ComponentKind, x: EntityId| x != b ==> #[trigger] final(world).has(k, x) == old(world).has(k, x)
            &&& final(world).issued() == old(world).issued().insert(b)
            &&& forall|k: ComponentKind|
                k != ComponentKind::PlayerControllable ==> #[trigger] old(world).kind_rebuilt(final(world), k, Set::empty(), set![b])
            &&& is_projectile_from(old(world), final(world), *entity, b, now)
        },
{
    let (position, rotation) = match world.get::<Transform>(entity) {
        Some(t) => (t.position, t.rotation),
        None => (Point::new(0, 0), 0),
    };
    if !fire {
        return None;
    }
    let last = match world.get::<PlayerControllable>(entity) {
        Some(c) => c.last_fired,
        None => {
            return None;
        },
    };
    let ready = match last {
        None => true,
        Some(t) => now >= t && now - t > FIRE_COOLDOWN,
    };
    if !ready {
        return None;
    }
    let ghost w0 = *world;
    world.add(entity, PlayerControllable { last_fired: Some(now) });
    let ghost w1 = *world;
    let bullet = Bullet::create(world, position.x, position.y, rotation, now);
    proof {
        PlayerControllable::lemma_extended_stored(&w1, world, bullet, bullet_kinds());
        World::lemma_extended_has(&w1, world, bullet, bullet_kinds());
        assert(!bullet_kinds().contains(ComponentKind::PlayerControllable));
        assert(w0.has(ComponentKind::PlayerControllable, *entity)) by {
            PlayerControllable::lemma_stored(&w0);
        }
        assert(!w0.is_live(bullet)) by {
            if w0.is_live(bullet) {
                let k = choose|k: ComponentKind| #[trigger] w0.has(k, bullet);
                if k != ComponentKind::PlayerControllable {
                    assert(w0.kind_unchanged(&w1, k));
                    w0.lemma_unchanged(&w1, k);
                } else {
                    PlayerControllable::lemma_stored(&w0);
                    PlayerControllable::lemma_stored(&w1);
                }
                assert(w1.has(k, bullet));
            }
        }
        assert(w0.kind_unchanged(&w1, ComponentKind::Transform));
        Transform::lemma_framed(&w0, &w1);
        forall_has_bullet(&w1, world, bullet);
        PlayerControllable::lemma_stored(&w0);
        w0.lemma_live_issued();
        assert(w0.is_live(*entity));
        assert(w0.issued().insert(*entity) =~= w0.issued());
        assert forall|k: ComponentKind|
            k != ComponentKind::PlayerControllable implies #[trigger] w0.kind_rebuilt(world, k, Set::empty(), set![bullet]) by {
            assert(w0.kind_unchanged(&w1, k));
            World::lemma_rebuilt_unchanged(&w0, &w1, k);
            World::lemma_rebuilt_extended(&w1, world, bullet, bullet_kinds(), k);
            World::lemma_rebuilt_trans(&w0, &w1, world, k, Set::empty(), Set::empty(), Set::empty(), set![bullet]);
            assert(Set::<EntityId>::empty().union(Set::empty()) =~= Set::<EntityId>::empty());
            assert(Set::<EntityId>::empty().union(set![bullet]) =~= set![bullet]);
        }
        assert forall|k: ComponentKind, x: EntityId| x != bullet implies #[trigger] world.has(k, x) == w0.has(k, x) by {
            assert(world.has(k, x) == w1.has(k, x));
            if k != ComponentKind::PlayerControllable {
                assert(w0.kind_unchanged(&w1, k));
                w0.lemma_unchanged(&w1, k);
            } else {
                PlayerControllable::lemma_stored(&w0);
                PlayerControllable::lemma_stored(&w1);
            }
        }
    }
    Some(bullet)
}

proof fn forall_has_bullet(a: &World, b: &World, e: EntityId)
    requires
        a.extended(b, e, bullet_kinds()),
        !a.is_live(e),
    ensures
        forall|k: ComponentKind| #[trigger] b.has(k, e) == bullet_kinds().contains(k),
{
    World::lemma_extended_has(a, b, e, bullet_kinds());
    assert forall|k: ComponentKind| #[trigger] b.has(k, e) == bullet_kinds().contains(k) by {
        if !bullet_kinds().contains(k) {
            assert(!a.has(k, e));
        }
    }
}

/// The transforms of `m` with the entities of `done` steered by `keys`.
pub open spec fn steer_all(m: Map<EntityId, Transform>, done: Set<EntityId>, keys: KeyState) -> Map<EntityId, Transform> {
    Map::new(
        |e: EntityId| m.contains_key(e),
        |e: EntityId|
            if done.contains(e) {
                Transform { rotation: steered(m[e].rotation, keys), ..m[e] }
            } else {
                m[e]
            },
    )
}

/// The heading of `e` after steering (0 without a transform).
pub open spec fn steered_rotation(t: Map<EntityId, Transform>, e: EntityId, keys: KeyState) -> u32 {
    if t.contains_key(e) {
        steered(t[e].rotation, keys)
    } else {
        0
    }
}

/// Where `e` of `t` stands after steering (the origin at heading 0 without a
/// transform).
pub open spec fn steered_aim(t: Map<EntityId, Transform>, e: EntityId, keys: KeyState) -> Transform {
    if t.contains_key(e) {
        Transform { rotation: steered(t[e].rotation, keys), ..t[e] }
    } else {
        Transform { position: Point { x: 0, y: 0 }, rotation: 0 }
    }
}

/// The physics of `p` with the entities of `done` thrusting along their
/// steered heading, or not.
pub open spec fn thrust_all(
    p: Map<EntityId, Physicsable>,
    t: Map<EntityId, Transform>,
    done: Set<EntityId>,
    keys: KeyState,
) -> Map<EntityId, Physicsable> {
    Map::new(
        |e: EntityId| p.contains_key(e),
        |e: EntityId|
            if done.contains(e) {
                thrusted(p[e], steered_rotation(t, e, keys), keys)
            } else {
                p[e]
            },
    )
}

/// The controllables of `c` with the entities of `done` that may fire
/// marked as having fired at `now`.
pub open spec fn fire_all(
    c: Map<EntityId, PlayerControllable>,
    done: Set<EntityId>,
    fire: bool,
    now: u64,
) -> Map<EntityId, PlayerControllable> {
    Map::new(
        |e: EntityId| c.contains_key(e),
        |e: EntityId|
            if done.contains(e) && fire && cooldown_over(c[e].last_fired, now) {
                PlayerControllable { last_fired: Some(now) }
            } else {
                c[e]
            },
    )
}

/// `after` is `before` with every controllable entity steered, thrusting
/// and, where allowed, firing: `r` pairs each one that fired with its new
/// projectile. Nothing else changes.
pub open spec fn input_step(before: &World, after: &World, keys: KeyState, now: u64, r: Seq<(EntityId, EntityId)>) -> bool {
    let c = before.dom(ComponentKind::PlayerControllable);
    let born = spawned_set(r);
    &&& forall|k: ComponentKind|
        k != ComponentKind::Transform && k != ComponentKind::Physicsable && k != ComponentKind::PlayerControllable
            ==> #[trigger] before.kind_rebuilt(after, k, Set::empty(), born)
    &&& Transform::stored(after).remove_keys(born) == steer_all(Transform::stored(before), c, keys)
    &&& Physicsable::stored(after).remove_keys(born) == thrust_all(
        Physicsable::stored(before),
        Transform::stored(before),
        c,
        keys,
    )
    &&& PlayerControllable::stored(after) == fire_all(PlayerControllable::stored(before), c, keys.fire, now)
    &&& split_sources(r).no_duplicates()
    &&& forall|x: EntityId| #[trigger] split_sources(r).contains(x) <==> can_fire(before, x, keys.fire, now)
    &&& r.map_values(|p: (EntityId, EntityId)| p.1).no_duplicates()
    &&& forall|i: int| 0 <= i < r.len() ==> !before.issued().contains(#[trigger] r[i].1)
    &&& forall|i: int|
        0 <= i < r.len() ==> #[trigger] projectile_at(
            after,
            r[i].1,
            steered_aim(Transform::stored(before), r[i].0, keys),
            now,
        )
    &&& after.issued() == before.issued().union(born)
}

/// Applies the player's keys to every controllable entity.
pub struct PlayerInputSystem;

impl PlayerInputSystem {
    /// For each controllable entity in turn: turn and thrust (see
    /// `apply_inputs_to`), then fire (see `handle_fire`). Returns each entity
    /// that fired with its projectile.
    pub fn update(world: &mut World, keys: KeyState, now: u64) -> (r: Vec<(EntityId, EntityId)>)
        requires
            old(world).wf(),
        ensures
            final(world).wf(),
            input_step(old(world), final(world), keys, now, r@),
    {
        let ghost w0 = *world;
        let ghost t0 = Transform::stored(&w0);
        let ghost p0 = Physicsable::stored(&w0);
        let ghost c0 = PlayerControllable::stored(&w0);
        let entities = world.entities::<PlayerControllable>();
        proof {
            w0.lemma_order(ComponentKind::PlayerControllable);
            PlayerControllable::lemma_stored(&w0);
            w0.lemma_live_issued();
            assert forall|k: ComponentKind|
                k != ComponentKind::Transform && k != ComponentKind::Physicsable && k != ComponentKind::PlayerControllable
                    implies #[trigger] w0.kind_rebuilt(world, k, Set::empty(), Set::empty()) by {
                w0.lemma_kind_unchanged_refl();
                World::lemma_rebuilt_unchanged(&w0, world, k);
            }
            assert(entities@.subrange(0, 0).to_set() =~= Set::<EntityId>::empty());
            assert(spawned_set(Seq::<(EntityId, EntityId)>::empty()) =~= Set::<EntityId>::empty());
            assert(Transform::stored(world).remove_keys(Set::empty()) =~= steer_all(t0, Set::empty(), keys));
            assert(Physicsable::stored(world).remove_keys(Set::empty()) =~= thrust_all(p0, t0, Set::empty(), keys));
            assert(PlayerControllable::stored(world) =~= fire_all(c0, Set::empty(), keys.fire, now));
            assert(w0.issued().union(Set::empty()) =~= w0.issued());
        }
        let mut fired: Vec<(EntityId, EntityId)> = Vec::new();
        let mut i: usize = 0;
        while i < entities.len()
            invariant
                world.wf(),
                w0.wf(),
                0 <= i <= entities@.len(),
                t0 == Transform::stored(&w0),
                p0 == Physicsable::stored(&w0),
                c0 == PlayerControllable::stored(&w0),
                entities@ == w0.order(ComponentKind::PlayerControllable),
                entities@.no_duplicates(),
                forall|e: EntityId| #[trigger] entities@.contains(e) <==> c0.contains_key(e),
                forall|e: EntityId| #[trigger] w0.is_live(e) ==> w0.issued().contains(e),
                forall|k: ComponentKind|
                    k != ComponentKind::Transform && k != ComponentKind::Physicsable && k != ComponentKind::PlayerControllable
                        ==> #[trigger] w0.kind_rebuilt(world, k, Set::empty(), spawned_set(fired@)),
                Transform::stored(world).remove_keys(spawned_set(fired@)) == steer_all(t0, entities@.subrange(0, i as int).to_set(), keys),
                Physicsable::stored(world).remove_keys(spawned_set(fired@)) == thrust_all(p0, t0, entities@.subrange(0, i as int).to_set(), keys),
                PlayerControllable::stored(world) == fire_all(c0, entities@.subrange(0, i as int).to_set(), keys.fire, now),
                split_sources(fired@).no_duplicates(),
                forall|x: EntityId| #[trigger] split_sources(fired@).contains(x) <==> (entities@.subrange(0, i as int).contains(x) && can_fire(&w0, x, keys.fire, now)),
                fired@.map_values(|p: (EntityId, EntityId)| p.1).no_duplicates(),
                forall|q: int| 0 <= q < fired@.len() ==> !w0.issued().contains(#[trigger] fired@[q].1),
                forall|q: int|
                    0 <= q < fired@.len() ==> #[trigger] projectile_at(
                        world,
                        fired@[q].1,
                        steered_aim(t0, fired@[q].0, keys),
                        now,
                    ),
                world.issued() == w0.issued().union(spawned_set(fired@)),
            decreases entities@.len() - i,
        {
            let e = entities[i];
            let ghost before = *world;
            let ghost pairs = fired@;
            let ghost born = spawned_set(pairs);
            let ghost done = entities@.subrange(0, i as int).to_set();
            proof {
                assert(entities@.contains(e));
                assert(c0.contains_key(e));
                PlayerControllable::lemma_stored(&w0);
                assert(w0.has(ComponentKind::PlayerControllable, e));
                assert(w0.is_live(e));
                assert(!born.contains(e)) by {
                    let ns = pairs.map_values(|p: (EntityId, EntityId)| p.1);
                    if ns.contains(e) {
                        let q = choose|q: int| 0 <= q < ns.len() && ns[q] == e;
                        assert(!w0.issued().contains(pairs[q].1));
                    }
                }
                assert(!done.contains(e)) by {
                    if entities@.subrange(0, i as int).contains(e) {
                        let q = choose|q: int| 0 <= q < i && entities@.subrange(0, i as int)[q] == e;
                        assert(entities@[q] == entities@[i as int]);
                    }
                }
                assert(Transform::stored(&before).remove_keys(born).contains_key(e) == t0.contains_key(e));
                assert(Physicsable::stored(&before).remove_keys(born).contains_key(e) == p0.contains_key(e));
                if t0.contains_key(e) {
                    assert(Transform::stored(&before)[e] == Transform::stored(&before).remove_keys(born)[e]);
                }
                if p0.contains_key(e) {
                    assert(Physicsable::stored(&before)[e] == Physicsable::stored(&before).remove_keys(born)[e]);
                }
            }
            apply_inputs_to(world, &e, keys);
            let ghost mid = *world;
            let made = handle_fire(world, &e, keys.fire, now);
            if let Some(b) = made {
                fired.push((e, b));
            }
            proof {
                let post_done = entities@.subrange(0, i + 1).to_set();
                assert(entities@.subrange(0, i + 1) =~= entities@.subrange(0, i as int).push(e));
                lemma_push_to_set(entities@.subrange(0, i as int), e);
                assert(post_done == done.insert(e));
                assert(before.kind_unchanged(&mid, ComponentKind::PlayerControllable));
                PlayerControllable::lemma_framed(&before, &mid);
                assert(PlayerControllable::stored(&before).contains_key(e));
                assert(PlayerControllable::stored(&before)[e] == c0[e]);
                assert(can_fire(&mid, e, keys.fire, now) == can_fire(&w0, e, keys.fire, now));
                // the spawned set grows by the new projectile, if any
                assert(spawned_set(fired@) =~= born.union(born_of(made))) by {
                    if let Some(b) = made {
                        assert(fired@.map_values(|p: (EntityId, EntityId)| p.1) =~= pairs.map_values(|p: (EntityId, EntityId)| p.1).push(b));
                        lemma_push_to_set(pairs.map_values(|p: (EntityId, EntityId)| p.1), b);
                    } else {
                        assert(born.union(Set::empty()) =~= born);
                    }
                }
                // the world after firing, seen without the new projectile, is `mid`
                assert forall|k: ComponentKind| k != ComponentKind::PlayerControllable implies #[trigger] mid.kind_rebuilt(world, k, Set::empty(), born_of(made)) by {
                    if made.is_none() {
                        mid.lemma_kind_unchanged_refl();
                        World::lemma_rebuilt_unchanged(&mid, world, k);
                    } else {
                        assert(born_of(made) == set![made.unwrap()]);
                    }
                }
                assert forall|k: ComponentKind|
                    k != ComponentKind::Transform && k != ComponentKind::Physicsable && k != ComponentKind::PlayerControllable
                        implies #[trigger] w0.kind_rebuilt(world, k, Set::empty(), spawned_set(fired@)) by {
                    assert(before.kind_unchanged(&mid, k));
                    World::lemma_rebuilt_unchanged(&before, &mid, k);
                    World::lemma_rebuilt_trans(&w0, &before, &mid, k, Set::empty(), born, Set::empty(), Set::empty());
                    assert(Set::<EntityId>::empty().union(Set::empty()) =~= Set::<EntityId>::empty());
                    assert(born.union(Set::empty()) =~= born);
                    World::lemma_rebuilt_trans(&w0, &mid, world, k, Set::empty(), born, Set::empty(), born_of(made));
                }
                Transform::lemma_rebuilt_stored(&mid, world, Set::empty(), born_of(made));
                Physicsable::lemma_rebuilt_stored(&mid, world, Set::empty(), born_of(made));
                lemma_remove_keys_twice(Transform::stored(world), born_of(made), born);
                lemma_remove_keys_twice(Physicsable::stored(world), born_of(made), born);
                assert(Transform::stored(&mid).remove_keys(Set::empty()) =~= Transform::stored(&mid));
                assert(Physicsable::stored(&mid).remove_keys(Set::empty()) =~= Physicsable::stored(&mid));
                assert(born_of(made).union(born) =~= spawned_set(fired@));
                lemma_steer_step(Transform::stored(&before), Transform::stored(&mid), t0, born, done, e, keys);
                lemma_thrust_step(
                    Physicsable::stored(&before),
                    Physicsable::stored(&mid),
                    Transform::stored(&before),
                    p0,
                    t0,
                    born,
                    done,
                    e,
                    keys,
                );
                if made.is_some() {
                    assert(PlayerControllable::stored(world) == PlayerControllable::stored(&mid).insert(
                        e,
                        PlayerControllable { last_fired: Some(now) },
                    ));
                } else {
                    assert(PlayerControllable::stored(world) == PlayerControllable::stored(&mid));
                }
                assert(PlayerControllable::stored(world) =~= fire_all(c0, post_done, keys.fire, now));
                assert(world.issued() =~= w0.issued().union(spawned_set(fired@)));
                // sources
                if let Some(b) = made {
                    assert(split_sources(fired@) =~= split_sources(pairs).push(e));
                    assert(!split_sources(pairs).contains(e));
                    assert forall|q: int| 0 <= q < pairs.len() implies pairs[q].1 != b by {
                        assert(pairs.map_values(|p: (EntityId, EntityId)| p.1)[q] == pairs[q].1);
                        assert(born.contains(pairs[q].1));
                    }
                    assert(fired@.map_values(|p: (EntityId, EntityId)| p.1) =~= pairs.map_values(|p: (EntityId, EntityId)| p.1).push(b));
                    assert(aim(&mid, e) == steered_aim(t0, e, keys));
                }
                assert forall|x: EntityId| #[trigger] split_sources(fired@).contains(x) <==> (entities@.subrange(0, i + 1).contains(x) && can_fire(&w0, x, keys.fire, now)) by {
                    assert(entities@.subrange(0, i + 1).to_set().contains(x) == entities@.subrange(0, i + 1).contains(x));
                    assert(entities@.subrange(0, i as int).to_set().contains(x) == entities@.subrange(0, i as int).contains(x));
                    if let Some(b) = made {
                        lemma_push_to_set(split_sources(pairs), e);
                        assert(split_sources(fired@).to_set().contains(x) == split_sources(fired@).contains(x));
                        assert(split_sources(pairs).to_set().contains(x) == split_sources(pairs).contains(x));
                    } else {
                        assert(fired@ == pairs);
                    }
                }
                // earlier projectiles keep their components
                assert forall|q: int| 0 <= q < fired@.len() implies !w0.issued().contains(#[trigger] fired@[q].1) by {
                    if q < pairs.len() {
                        assert(fired@[q] == pairs[q]);
                    } else {
                        assert(fired@[q] == (e, made.unwrap()));
                    }
                }
                assert forall|q: int| 0 <= q < fired@.len() implies #[trigger] projectile_at(
                    world,
                    fired@[q].1,
                    steered_aim(t0, fired@[q].0, keys),
                    now,
                ) by {
                    if q < pairs.len() {
                        let b0 = pairs[q].1;
                        assert(fired@[q] == pairs[q]);
                        assert(!w0.issued().contains(pairs[q].1));
                        assert(projectile_at(&before, b0, steered_aim(t0, pairs[q].0, keys), now));
                        assert(born.contains(b0)) by {
                            assert(pairs.map_values(|p: (EntityId, EntityId)| p.1)[q] == b0);
                        }
                        assert(b0 != e);
                        assert(!born_of(made).contains(b0)) by {
                            if let Some(b) = made {
                                assert(!before.issued().contains(b));
                            }
                        }
                        lemma_projectile_kept(&before, &mid, world, e, made, b0, steered_aim(t0, pairs[q].0, keys), now);
                    } else {
                        assert(fired@[q] == (e, made.unwrap()));
                        assert(aim(&mid, e) == steered_aim(t0, e, keys));
                    }
                }
            }
            i = i + 1;
        }
        proof {
            assert(entities@.subrange(0, i as int) =~= entities@);
            assert(entities@.to_set() =~= w0.dom(ComponentKind::PlayerControllable)) by {
                assert forall|x: EntityId| entities@.to_set().contains(x) == w0.dom(ComponentKind::PlayerControllable).contains(x) by {
                    assert(w0.has(ComponentKind::PlayerControllable, x) == c0.contains_key(x));
                }
            }
            assert forall|x: EntityId| #[trigger] split_sources(fired@).contains(x) <==> can_fire(&w0, x, keys.fire, now) by {
                if can_fire(&w0, x, keys.fire, now) {
                    assert(entities@.contains(x));
                }
            }
        }
        fired
    }
}

proof fn lemma_steer_step(
    tb: Map<EntityId, Transform>,
    tm: Map<EntityId, Transform>,
    t0: Map<EntityId, Transform>,
    born: Set<EntityId>,
    done: Set<EntityId>,
    e: EntityId,
    keys: KeyState,
)
    requires
        tb.remove_keys(born) == steer_all(t0, done, keys),
        !born.contains(e),
        !done.contains(e),
        tm == if tb.contains_key(e) {
            tb.insert(e, Transform { rotation: steered(tb[e].rotation, keys), ..tb[e] })
        } else {
            tb
        },
    ensures
        tm.remove_keys(born) == steer_all(t0, done.insert(e), keys),
{
    assert(tb.remove_keys(born).contains_key(e) == tb.contains_key(e));
    if tb.contains_key(e) {
        assert(tb.remove_keys(born)[e] == tb[e]);
    }
    let l = tm.remove_keys(born);
    let r = steer_all(t0, done.insert(e), keys);
    assert forall|x: EntityId| #[trigger] l.contains_key(x) == r.contains_key(x) by {
        assert(tb.remove_keys(born).contains_key(x) == steer_all(t0, done, keys).contains_key(x));
    }
    assert forall|x: EntityId| l.contains_key(x) implies #[trigger] l[x] == r[x] by {
        if x != e {
            assert(tb.remove_keys(born)[x] == steer_all(t0, done, keys)[x]);
        }
    }
    assert(l =~= r);
}

proof fn lemma_thrust_step(
    pb: Map<EntityId, Physicsable>,
    pm: Map<EntityId, Physicsable>,
    tb: Map<EntityId, Transform>,
    p0: Map<EntityId, Physicsable>,
    t0: Map<EntityId, Transform>,
    born: Set<EntityId>,
    done: Set<EntityId>,
    e: EntityId,
    keys: KeyState,
)
    requires
        pb.remove_keys(born) == thrust_all(p0, t0, done, keys),
        tb.remove_keys(born) == steer_all(t0, done, keys),
        !born.contains(e),
        !done.contains(e),
        pm == if pb.contains_key(e) {
            pb.insert(
                e,
                thrusted(pb[e], if tb.contains_key(e) { steered(tb[e].rotation, keys) } else { 0 }, keys),
            )
        } else {
            pb
        },
    ensures
        pm.remove_keys(born) == thrust_all(p0, t0, done.insert(e), keys),
{
    assert(pb.remove_keys(born).contains_key(e) == pb.contains_key(e));
    assert(tb.remove_keys(born).contains_key(e) == tb.contains_key(e));
    if pb.contains_key(e) {
        assert(pb.remove_keys(born)[e] == pb[e]);
    }
    if tb.contains_key(e) {
        assert(tb.remove_keys(born)[e] == tb[e]);
    }
    let l = pm.remove_keys(born);
    let r = thrust_all(p0, t0, done.insert(e), keys);
    assert forall|x: EntityId| #[trigger] l.contains_key(x) == r.contains_key(x) by {
        assert(pb.remove_keys(born).contains_key(x) == thrust_all(p0, t0, done, keys).contains_key(x));
    }
    assert forall|x: EntityId| l.contains_key(x) implies #[trigger] l[x] == r[x] by {
        if x != e {
            assert(pb.remove_keys(born)[x] == thrust_all(p0, t0, done, keys)[x]);
        }
    }
    assert(l =~= r);
}

/// A projectile `b` keeps its components while `e` is steered and fires.
proof fn lemma_projectile_kept(
    before: &World,
    mid: &World,
    after: &World,
    e: EntityId,
    made: Option<EntityId>,
    b: EntityId,
    from: Transform,
    now: u64,
)
    requires
        projectile_at(before, b, from, now),
        b != e,
        !born_of(made).contains(b),
        forall|k: ComponentKind|
            k != ComponentKind::Physicsable && k != ComponentKind::Transform ==> #[trigger] before.kind_unchanged(mid, k),
        Transform::stored(mid) == if Transform::stored(before).contains_key(e) {
            Transform::stored(before).insert(e, Transform::stored(mid)[e])
        } else {
            Transform::stored(before)
        },
        Physicsable::stored(mid) == if Physicsable::stored(before).contains_key(e) {
            Physicsable::stored(before).insert(e, Physicsable::stored(mid)[e])
        } else {
            Physicsable::stored(before)
        },
        forall|k: ComponentKind| k != ComponentKind::PlayerControllable ==> #[trigger] mid.kind_rebuilt(after, k, Set::empty(), born_of(made)),
        made.is_none() ==> *after == *mid,
        made.is_some() ==> forall|k: ComponentKind, x: EntityId| x != made.unwrap() ==> #[trigger] after.has(k, x) == mid.has(k, x),
    ensures
        projectile_at(after, b, from, now),
{
    Transform::lemma_stored(before);
    Transform::lemma_stored(mid);
    Physicsable::lemma_stored(before);
    Physicsable::lemma_stored(mid);
    assert forall|k: ComponentKind| #[trigger] mid.has(k, b) == before.has(k, b) by {
        if k != ComponentKind::Physicsable && k != ComponentKind::Transform {
            before.lemma_unchanged(mid, k);
        }
    }
    assert(before.kind_unchanged(mid, ComponentKind::Tag));
    assert(before.kind_unchanged(mid, ComponentKind::Expirable));
    Tag::lemma_framed(before, mid);
    Expirable::lemma_framed(before, mid);
    Tag::lemma_rebuilt_stored(mid, after, Set::empty(), born_of(made));
    Transform::lemma_rebuilt_stored(mid, after, Set::empty(), born_of(made));
    Physicsable::lemma_rebuilt_stored(mid, after, Set::empty(), born_of(made));
    Expirable::lemma_rebuilt_stored(mid, after, Set::empty(), born_of(made));
    assert(Tag::stored(mid).remove_keys(Set::empty()) =~= Tag::stored(mid));
    assert(Transform::stored(mid).remove_keys(Set::empty()) =~= Transform::stored(mid));
    assert(Physicsable::stored(mid).remove_keys(Set::empty()) =~= Physicsable::stored(mid));
    assert(Expirable::stored(mid).remove_keys(Set::empty()) =~= Expirable::stored(mid));
    assert(Tag::stored(mid).contains_key(b)) by {
        assert(before.has(ComponentKind::Tag, b));
        Tag::lemma_stored(before);
    }
    assert(Expirable::stored(mid).contains_key(b)) by {
        assert(before.has(ComponentKind::Expirable, b));
        Expirable::lemma_stored(before);
    }
    assert(before.has(ComponentKind::Transform, b));
    assert(before.has(ComponentKind::Physicsable, b));
    assert(Transform::stored(mid).contains_key(b));
    assert(Physicsable::stored(mid).contains_key(b));
    assert(Tag::stored(after).remove_keys(born_of(made)).contains_key(b));
    assert(Transform::stored(after).remove_keys(born_of(made)).contains_key(b));
    assert(Physicsable::stored(after).remove_keys(born_of(made)).contains_key(b));
    assert(Expirable::stored(after).remove_keys(born_of(made)).contains_key(b));
    assert(Tag::stored(after)[b] == Tag::stored(before)[b]);
    assert(Transform::stored(mid)[b] == Transform::stored(before)[b]);
    assert(Physicsable::stored(mid)[b] == Physicsable::stored(before)[b]);
    assert(Transform::stored(after).remove_keys(born_of(made))[b] == Transform::stored(after)[b]);
    assert(Physicsable::stored(after).remove_keys(born_of(made))[b] == Physicsable::stored(after)[b]);
    assert(Transform::stored(after)[b] == Transform::stored(before)[b]);
    assert(Physicsable::stored(after)[b] == Physicsable::stored(before)[b]);
    assert(Expirable::stored(after)[b] == Expirable::stored(before)[b]);
    assert forall|k: ComponentKind| #[trigger] after.has(k, b) == bullet_kinds().contains(k) by {
        assert(mid.has(k, b) == before.has(k, b));
        if let Some(n) = made {
            assert(b != n);
        }
    }
}

} // verus!
