use crate::components::{Physicsable, Transform};
use crate::entity::EntityId;
use crate::geometry::Point;
use crate::world::{Component, ComponentKind, World};
use vstd::prelude::*;

verus! {

/// The largest speed, per tick, in fixed-point units (five pixels).
pub const MAX_VELOCITY: i64 = 5000;

/// `v` clamped to the range of `i64`.
pub open spec fn saturated(v: int) -> int {
    if v > i64::MAX {
        i64::MAX as int
    } else if v < i64::MIN {
        i64::MIN as int
    } else {
        v
    }
}

/// The squared length of `v`.
pub open spec fn speed_sq(v: Point) -> int {
    v.x * v.x + v.y * v.y
}

/// `s` is the smallest natural number whose square reaches `n`.
pub open spec fn is_ceil_sqrt(n: int, s: int) -> bool {
    s >= 0 && s * s >= n && (s == 0 || (s - 1) * (s - 1) < n)
}

/// The smallest natural number whose square reaches `n`.
pub open spec fn ceil_sqrt(n: int) -> int {
    choose|s: int| is_ceil_sqrt(n, s)
}

/// Division rounding toward zero.
pub open spec fn truncated(a: int, b: int) -> int {
    if a >= 0 {
        a / b
    } else {
        -((-a) / b)
    }
}

/// `v` unchanged when its length is at most `MAX_VELOCITY`; otherwise `v`
/// rescaled to length `MAX_VELOCITY`, each component rounded toward zero.
pub open spec fn clamped(v: Point) -> Point {
    if speed_sq(v) <= MAX_VELOCITY * MAX_VELOCITY {
        v
    } else {
        let s = ceil_sqrt(speed_sq(v));
        Point {
            x: truncated(v.x * MAX_VELOCITY, s) as i64,
            y: truncated(v.y * MAX_VELOCITY, s) as i64,
        }
    }
}

/// The physics of an entity after one tick: acceleration added to the
/// velocity (saturating), then the speed clamped.
pub open spec fn accelerated(p: Physicsable) -> Physicsable {
    Physicsable {
        velocity: clamped(
            Point {
                x: saturated(p.velocity.x + p.acceleration.x) as i64,
                y: saturated(p.velocity.y + p.acceleration.y) as i64,
            },
        ),
        acceleration: p.acceleration,
    }
}

/// `x` on a circle of circumference `size`: one `size` added when negative,
/// one subtracted when at or past `size`.
pub open spec fn wrapped(x: int, size: int) -> int {
    if x < 0 {
        x + size
    } else if x >= size {
        x - size
    } else {
        x
    }
}

/// `t` moved by `velocity` (saturating) and wrapped into the screen.
pub open spec fn moved(t: Transform, velocity: Point, width: i64, height: i64) -> Transform {
    Transform {
        position: Point {
            x: wrapped(saturated(t.position.x + velocity.x), width as int) as i64,
            y: wrapped(saturated(t.position.y + velocity.y), height as int) as i64,
        },
        rotation: t.rotation,
    }
}

proof fn lemma_ceil_sqrt_unique(n: int, s: int)
    requires
        is_ceil_sqrt(n, s),
    ensures
        ceil_sqrt(n) == s,
{
    let t = ceil_sqrt(n);
    assert(is_ceil_sqrt(n, t));
    if t < s {
        assert(t * t <= (s - 1) * (s - 1)) by (nonlinear_arith)
            requires 0 <= t, t <= s - 1;
    }
    if s < t {
        assert(s * s <= (t - 1) * (t - 1)) by (nonlinear_arith)
            requires 0 <= s, s <= t - 1;
    }
}

/// The smallest natural number whose square reaches `n`.
fn ceil_sqrt_exec(n: u128) -> (r: u128)
    requires
        0 < n <= 0x8000_0000_0000_0000_0000_0000_0000_0000,
    ensures
        is_ceil_sqrt(n as int, r as int),
        r <= 0x1_0000_0000_0000_0000,
{
    let mut lo: u128 = 0;
    let mut hi: u128 = 0x1_0000_0000_0000_0000;
    assert(hi * hi >= n) by (nonlinear_arith)
        requires hi == 0x1_0000_0000_0000_0000u128, n <= 0x8000_0000_0000_0000_0000_0000_0000_0000u128;
    while hi - lo > 1
        invariant
            lo < hi <= 0x1_0000_0000_0000_0000,
            (lo as int) * (lo as int) < n,
            (hi as int) * (hi as int) >= n,
        decreases hi - lo,
    {
        let mid = lo + (hi - lo) / 2;
        assert(mid * mid < 0x1_0000_0000_0000_0000_0000_0000_0000_0000) by (nonlinear_arith)
            requires mid < 0x1_0000_0000_0000_0000u128;
        if mid * mid >= n {
            hi = mid;
        } else {
            lo = mid;
        }
    }
    hi
}

proof fn lemma_truncated(a: int, b: int)
    requires
        b > 0,
    ensures
        (if truncated(a, b) >= 0 { truncated(a, b) } else { -truncated(a, b) }) * b <= (if a >= 0 { a } else { -a }),
        a >= 0 ==> truncated(a, b) >= 0,
        a < 0 ==> truncated(a, b) <= 0,
{
    let m = if a >= 0 { a } else { -a };
    vstd::arithmetic::div_mod::lemma_fundamental_div_mod(m, b);
    assert(0 <= m / b) by {
        vstd::arithmetic::div_mod::lemma_div_pos_is_pos(m, b);
    }
    assert((m / b) * b <= m) by (nonlinear_arith)
        requires m == b * (m / b) + m % b, 0 <= m % b;
}

proof fn lemma_clamp_bound(vx: int, vy: int, tx: int, ty: int, s: int, m: int)
    requires
        s > 0,
        m > 0,
        s * s >= vx * vx + vy * vy,
        0 <= (if tx >= 0 { tx } else { -tx }) * s <= (if vx >= 0 { vx } else { -vx }) * m,
        0 <= (if ty >= 0 { ty } else { -ty }) * s <= (if vy >= 0 { vy } else { -vy }) * m,
    ensures
        tx * tx + ty * ty <= m * m,
{
    let ax = if tx >= 0 { tx } else { -tx };
    let ay = if ty >= 0 { ty } else { -ty };
    let bx = if vx >= 0 { vx } else { -vx };
    let by_ = if vy >= 0 { vy } else { -vy };
    assert(ax * s * (ax * s) <= bx * m * (bx * m)) by (nonlinear_arith)
        requires 0 <= ax * s <= bx * m;
    assert(ay * s * (ay * s) <= by_ * m * (by_ * m)) by (nonlinear_arith)
        requires 0 <= ay * s <= by_ * m;
    assert(tx * tx == ax * ax && ty * ty == ay * ay && vx * vx == bx * bx && vy * vy == by_ * by_) by (nonlinear_arith)
        requires
            ax == (if tx >= 0 { tx } else { -tx }),
            ay == (if ty >= 0 { ty } else { -ty }),
            bx == (if vx >= 0 { vx } else { -vx }),
            by_ == (if vy >= 0 { vy } else { -vy });
    assert(tx * tx * (s * s) == ax * s * (ax * s)) by (nonlinear_arith)
        requires tx * tx == ax * ax;
    assert(ty * ty * (s * s) == ay * s * (ay * s)) by (nonlinear_arith)
        requires ty * ty == ay * ay;
    assert(vx * vx * (m * m) == bx * m * (bx * m)) by (nonlinear_arith)
        requires vx * vx == bx * bx;
    assert(vy * vy * (m * m) == by_ * m * (by_ * m)) by (nonlinear_arith)
        requires vy * vy == by_ * by_;
    assert((tx * tx + ty * ty) * (s * s) == tx * tx * (s * s) + ty * ty * (s * s)) by (nonlinear_arith);
    assert((vx * vx + vy * vy) * (m * m) == vx * vx * (m * m) + vy * vy * (m * m)) by (nonlinear_arith);
    assert((tx * tx + ty * ty) * (s * s) <= (vx * vx + vy * vy) * (m * m));
    assert((vx * vx + vy * vy) * (m * m) <= (s * s) * (m * m)) by (nonlinear_arith)
        requires s * s >= vx * vx + vy * vy, m > 0;
    assert(tx * tx + ty * ty <= m * m) by (nonlinear_arith)
        requires
            (tx * tx + ty * ty) * (s * s) <= (s * s) * (m * m),
            s > 0;
}

fn saturate(v: i128) -> (r: i64)
    ensures
        r == saturated(v as int),
{
    if v > i64::MAX as i128 {
        i64::MAX
    } else if v < i64::MIN as i128 {
        i64::MIN
    } else {
        v as i64
    }
}

fn truncate_div(a: i128, b: i128) -> (r: i128)
    requires
        b > 0,
        a > i128::MIN,
    ensures
        r == truncated(a as int, b as int),
{
    if a >= 0 {
        a / b
    } else {
        -((-a) / b)
    }
}

/// `velocity` unchanged when no faster than `MAX_VELOCITY`, else rescaled
/// to that speed in the same direction.
pub fn clamp_velocity(velocity: Point) -> (r: Point)
    ensures
        r == clamped(velocity),
        speed_sq(r) <= MAX_VELOCITY * MAX_VELOCITY,
{
    let vx = velocity.x as i128;
    let vy = velocity.y as i128;
    assert(0 <= vx * vx <= 0x4000_0000_0000_0000_0000_0000_0000_0000) by (nonlinear_arith)
        requires i64::MIN <= vx <= i64::MAX;
    assert(0 <= vy * vy <= 0x4000_0000_0000_0000_0000_0000_0000_0000) by (nonlinear_arith)
        requires i64::MIN <= vy <= i64::MAX;
    let n: u128 = (vx * vx) as u128 + (vy * vy) as u128;
    if n <= (MAX_VELOCITY as u128) * (MAX_VELOCITY as u128) {
        return velocity;
    }
    let s = ceil_sqrt_exec(n);
    proof {
        lemma_ceil_sqrt_unique(n as int, s as int);
    }
    let sx = s as i128;
    let m = MAX_VELOCITY as i128;
    assert(-0x8000_0000_0000_0000 * 5000 <= vx * m <= 0x8000_0000_0000_0000 * 5000) by (nonlinear_arith)
        requires i64::MIN <= vx <= i64::MAX, m == 5000;
    assert(-0x8000_0000_0000_0000 * 5000 <= vy * m <= 0x8000_0000_0000_0000 * 5000) by (nonlinear_arith)
        requires i64::MIN <= vy <= i64::MAX, m == 5000;
    assert(sx > 0);
    let tx = truncate_div(vx * m, sx);
    let ty = truncate_div(vy * m, sx);
    proof {
        lemma_truncated(vx * m, sx as int);
        lemma_truncated(vy * m, sx as int);
        let (xi, yi, mi) = (vx as int, vy as int, m as int);
        assert((if xi * mi >= 0 { xi * mi } else { -(xi * mi) }) == (if xi >= 0 { xi } else { -xi }) * mi) by (nonlinear_arith)
            requires mi == 5000;
        assert((if yi * mi >= 0 { yi * mi } else { -(yi * mi) }) == (if yi >= 0 { yi } else { -yi }) * mi) by (nonlinear_arith)
            requires mi == 5000;
        lemma_clamp_bound(vx as int, vy as int, tx as int, ty as int, sx as int, m as int);
        assert(-5000 <= tx <= 5000) by (nonlinear_arith)
            requires tx * tx + ty * ty <= 5000 * 5000;
        assert(-5000 <= ty <= 5000) by (nonlinear_arith)
            requires tx * tx + ty * ty <= 5000 * 5000;
    }
    Point { x: tx as i64, y: ty as i64 }
}

/// Wraps one coordinate into `[0, size]` by one turn of the circle.
pub fn wrap_coordinate(x: i64, size: i64) -> (r: i64)
    requires
        size >= 0,
    ensures
        r == wrapped(x as int, size as int),
{
    if x < 0 {
        x + size
    } else if x >= size {
        x - size
    } else {
        x
    }
}

/// A position exactly at the edge wraps to 0, one past it to 1, and a
/// negative one to `size` minus its magnitude.
pub proof fn lemma_wrap_around(size: int, x: int)
    requires
        size >= 0,
    ensures
        wrapped(size, size) == 0,
        wrapped(size + 1, size) == 1,
        x < 0 ==> wrapped(x, size) == size - (-x),
{
}

/// One tick of physics for `p`: acceleration into velocity, then the speed
/// clamped; whatever the acceleration, the speed never exceeds
/// `MAX_VELOCITY`.
pub fn handle_acceleration(p: Physicsable) -> (r: Physicsable)
    ensures
        r == accelerated(p),
        speed_sq(r.velocity) <= MAX_VELOCITY * MAX_VELOCITY,
{
    let vx = saturate(p.velocity.x as i128 + p.acceleration.x as i128);
    let vy = saturate(p.velocity.y as i128 + p.acceleration.y as i128);
    Physicsable { velocity: clamp_velocity(Point { x: vx, y: vy }), acceleration: p.acceleration }
}

/// `t` moved by `velocity` and wrapped into a screen of the given size.
pub fn handle_velocity(t: Transform, velocity: Point, width: i64, height: i64) -> (r: Transform)
    requires
        width >= 0,
        height >= 0,
    ensures
        r == moved(t, velocity, width, height),
{
    let x = saturate(t.position.x as i128 + velocity.x as i128);
    let y = saturate(t.position.y as i128 + velocity.y as i128);
    Transform {
        position: Point { x: wrap_coordinate(x, width), y: wrap_coordinate(y, height) },
        rotation: t.rotation,
    }
}

/// `after` is `before` with every entity that has physics accelerated,
/// moved and wrapped, and nothing else changed.
pub open spec fn physics_step(before: &World, after: &World, width: i64, height: i64) -> bool {
    &&& forall|k: ComponentKind|
        k != ComponentKind::Physicsable && k != ComponentKind::Transform ==> #[trigger] before.kind_unchanged(after, k)
    &&& forall|e: EntityId|
        #[trigger] Physicsable::stored(after).contains_key(e) == Physicsable::stored(before).contains_key(e)
    &&& forall|e: EntityId|
        #[trigger] Physicsable::stored(before).contains_key(e) ==> Physicsable::stored(after)[e]
            == accelerated(Physicsable::stored(before)[e])
    &&& forall|e: EntityId|
        #[trigger] Transform::stored(after).contains_key(e) == Transform::stored(before).contains_key(e)
    &&& forall|e: EntityId|
        #[trigger] Transform::stored(before).contains_key(e) ==> Transform::stored(after)[e] == if Physicsable::stored(before).contains_key(e) {
            moved(
                Transform::stored(before)[e],
                accelerated(Physicsable::stored(before)[e]).velocity,
                width,
                height,
            )
        } else {
            Transform::stored(before)[e]
        }
    &&& after.issued() == before.issued()
}

/// Moves every entity that has physics.
pub struct PhysicsSystem;

impl PhysicsSystem {
    /// For every entity with a `Physicsable`: velocity updated and clamped
    /// (`accelerated`), then, when it has a `Transform`, position moved by
    /// the new velocity and wrapped into a `width` by `height` screen.
    /// No other component changes.
    pub fn update(world: &mut World, width: i64, height: i64)
        requires
            old(world).wf(),
            width >= 0,
            height >= 0,
        ensures
            final(world).wf(),
            physics_step(old(world), final(world), width, height),
    {
        let ghost w0 = *world;
        let entities = world.entities::<Physicsable>();
        proof {
            w0.lemma_order(ComponentKind::Physicsable);
            Physicsable::lemma_stored(&w0);
            w0.lemma_kind_unchanged_refl();
            w0.lemma_live_issued();
        }
        let mut i: usize = 0;
        while i < entities.len()
            invariant
                world.wf(),
                width >= 0,
                height >= 0,
                0 <= i <= entities@.len(),
                entities@ == w0.order(ComponentKind::Physicsable),
                entities@.no_duplicates(),
                world.issued() == w0.issued(),
                forall|x: EntityId| #[trigger] w0.is_live(x) ==> w0.issued().contains(x),
                forall|e: EntityId| #[trigger] entities@.contains(e) <==> Physicsable::stored(&w0).contains_key(e),
                forall|k: ComponentKind|
                    k != ComponentKind::Physicsable && k != ComponentKind::Transform ==> #[trigger] w0.kind_unchanged(world, k),
                forall|e: EntityId|
                    #[trigger] Physicsable::stored(world).contains_key(e) == Physicsable::stored(&w0).contains_key(e),
                forall|e: EntityId|
                    #[trigger] Physicsable::stored(&w0).contains_key(e) ==> Physicsable::stored(world)[e] == if entities@.subrange(0, i as int).contains(e) {
                        accelerated(Physicsable::stored(&w0)[e])
                    } else {
                        Physicsable::stored(&w0)[e]
                    },
                forall|e: EntityId|
                    #[trigger] Transform::stored(world).contains_key(e) == Transform::stored(&w0).contains_key(e),
                forall|e: EntityId|
                    #[trigger] Transform::stored(&w0).contains_key(e) ==> Transform::stored(world)[e] == if entities@.subrange(0, i as int).contains(e) {
                        moved(Transform::stored(&w0)[e], accelerated(Physicsable::stored(&w0)[e]).velocity, width, height)
                    } else {
                        Transform::stored(&w0)[e]
                    },
            decreases entities@.len() - i,
        {
            let e = entities[i];
            let ghost pre = entities@.subrange(0, i as int);
            let ghost post = entities@.subrange(0, i + 1);
            proof {
                assert(post =~= pre.push(e));
                assert(!pre.contains(e)) by {
                    if pre.contains(e) {
                        let j = choose|j: int| 0 <= j < pre.len() && pre[j] == e;
                        assert(entities@[j] == entities@[i as int]);
                    }
                }
                assert forall|y: EntityId| #[trigger] post.contains(y) == (pre.contains(y) || y == e) by {
                    if pre.contains(y) {
                        let j = choose|j: int| 0 <= j < pre.len() && pre[j] == y;
                        assert(post[j] == y);
                    }
                    if post.contains(y) && y != e {
                        let j = choose|j: int| 0 <= j < post.len() && post[j] == y;
                        assert(pre[j] == y);
                    }
                    if y == e {
                        assert(post[i as int] == y);
                    }
                }
                assert(entities@.contains(entities@[i as int]));
                Physicsable::lemma_stored(&w0);
                assert(Physicsable::stored(&w0).contains_key(e));
                assert(w0.has(ComponentKind::Physicsable, e));
                assert(w0.is_live(e));
                assert(world.issued().insert(e) =~= world.issued());
            }
            let ghost w1 = *world;
            let p = match world.get::<Physicsable>(&e) {
                Some(p) => *p,
                None => {
                    proof {
                        assert(false);
                    }
                    Physicsable::new(0, 0)
                },
            };
            let np = handle_acceleration(p);
            world.add(&e, np);
            let ghost w2 = *world;
            proof {
                assert(w1.kind_unchanged(&w2, ComponentKind::Transform));
                Transform::lemma_framed(&w1, &w2);
                assert forall|k: ComponentKind|
                    k != ComponentKind::Physicsable && k != ComponentKind::Transform implies #[trigger] w0.kind_unchanged(&w2, k) by {
                    assert(w1.kind_unchanged(&w2, k));
                    World::lemma_kind_unchanged_trans(&w0, &w1, &w2, k);
                }
            }
            let t = match world.get::<Transform>(&e) {
                Some(t) => Some(*t),
                None => None,
            };
            if let Some(t) = t {
                let nt = handle_velocity(t, np.velocity, width, height);
                world.add(&e, nt);
                proof {
                    assert(w2.kind_unchanged(world, ComponentKind::Physicsable));
                    Physicsable::lemma_framed(&w2, world);
                    assert forall|k: ComponentKind|
                        k != ComponentKind::Physicsable && k != ComponentKind::Transform implies #[trigger] w0.kind_unchanged(world, k) by {
                        assert(w2.kind_unchanged(world, k));
                        World::lemma_kind_unchanged_trans(&w0, &w2, world, k);
                    }
                }
            }
            i = i + 1;
        }
        proof {
            assert(entities@.subrange(0, i as int) =~= entities@);
        }
    }
}

} // verus!
