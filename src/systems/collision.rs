use crate::components::{Collidable, Collision, Transform};
use crate::entity::EntityId;
use crate::geometry::{rotated, rotation_transform, Point, COORD_LIMIT};
use crate::world::{Component, ComponentKind, World};
use geo::Intersects;
use vstd::prelude::*;

verus! {

/// Every coordinate of `s` lies within `[-2 * COORD_LIMIT, 2 * COORD_LIMIT]`.
pub open spec fn bounded(s: Seq<Point>) -> bool {
    forall|i: int|
        0 <= i < s.len() ==> -2 * COORD_LIMIT <= #[trigger] s[i].x <= 2 * COORD_LIMIT && -2
            * COORD_LIMIT <= s[i].y <= 2 * COORD_LIMIT
}

/// Whether the closed polygons with vertices `a` and `b` share a point,
/// boundary included.
pub uninterp spec fn polygons_intersect(a: Seq<Point>, b: Seq<Point>) -> bool;

/// Relies on geo's `Intersects` between two `Polygon<i128>`: whether the two
/// polygons share a point of boundary or interior, a relation geo documents as
/// symmetric. The coordinates are bounded so that its integer kernel cannot
/// overflow.
#[verifier::external_body]
fn polygon_intersects(a: &Vec<Point>, b: &Vec<Point>) -> (r: bool)
    requires
        a@.len() > 0,
        b@.len() > 0,
        bounded(a@),
        bounded(b@),
    ensures
        r == polygons_intersect(a@, b@),
        r == polygons_intersect(b@, a@),
{
    let ring_a: Vec<(i128, i128)> = a.iter().map(|p| (p.x as i128, p.y as i128)).collect();
    let ring_b: Vec<(i128, i128)> = b.iter().map(|p| (p.x as i128, p.y as i128)).collect();
    let pa = geo::Polygon::new(geo::LineString::from(ring_a), vec![]);
    let pb = geo::Polygon::new(geo::LineString::from(ring_b), vec![]);
    pa.intersects(&pb)
}

/// Two outlines overlap: both have vertices and the polygons share a point.
pub open spec fn overlap(a: Seq<Point>, b: Seq<Point>) -> bool {
    a.len() > 0 && b.len() > 0 && polygons_intersect(a, b)
}

/// Whether two world-space outlines overlap, touching included. An empty
/// outline overlaps nothing. The answer does not depend on the order of the
/// arguments.
pub fn overlaps(entity1: &Vec<Point>, entity2: &Vec<Point>) -> (r: bool)
    requires
        bounded(entity1@),
        bounded(entity2@),
    ensures
        r == overlap(entity1@, entity2@),
        r == overlap(entity2@, entity1@),
{
    if entity1.len() == 0 || entity2.len() == 0 {
        return false;
    }
    polygon_intersects(entity1, entity2)
}

/// `p` moved by `by`, unless a coordinate would leave the accepted range.
pub open spec fn shifted(p: Point, by: Point) -> Option<Point> {
    let x = p.x + by.x;
    let y = p.y + by.y;
    if -COORD_LIMIT <= x <= COORD_LIMIT && -COORD_LIMIT <= y <= COORD_LIMIT {
        Some(Point { x: x as i64, y: y as i64 })
    } else {
        None
    }
}

/// The world-space image of a local vertex: moved by the position, then
/// rotated about the origin by the heading.
pub open spec fn placed(p: Point, t: Transform) -> Point {
    let q = shifted(p, t.position).unwrap();
    Point { x: rotated(q, t.rotation as int).0 as i64, y: rotated(q, t.rotation as int).1 as i64 }
}

/// The world-space outline of `local` under `t`; none when a moved
/// vertex leaves the accepted coordinate range.
pub open spec fn world_bounds(local: Seq<Point>, t: Transform) -> Option<Seq<Point>> {
    if forall|i: int| 0 <= i < local.len() ==> #[trigger] shifted(local[i], t.position).is_some() {
        Some(local.map_values(|p: Point| placed(p, t)))
    } else {
        None
    }
}

/// The world-space outline of entity `e`, when it has both a `Collidable`
/// and a `Transform`.
pub open spec fn entity_bounds(w: &World, e: EntityId) -> Option<Seq<Point>> {
    if Collidable::stored(w).contains_key(e) && Transform::stored(w).contains_key(e) {
        world_bounds(Collidable::stored(w)[e].bounds@, Transform::stored(w)[e])
    } else {
        None
    }
}

/// Entities `a` and `b` of `w` overlap.
pub open spec fn entities_overlap(w: &World, a: EntityId, b: EntityId) -> bool {
    match (entity_bounds(w, a), entity_bounds(w, b)) {
        (Some(x), Some(y)) => overlap(x, y),
        _ => false,
    }
}

/// The overlapping pairs `(s[n], s[i])` for `i < j`, in order of `i`.
pub open spec fn row(w: &World, s: Seq<EntityId>, n: int, j: int) -> Seq<(EntityId, EntityId)>
    decreases j,
{
    if j <= 0 {
        Seq::empty()
    } else if entities_overlap(w, s[n], s[j - 1]) {
        row(w, s, n, j - 1).push((s[n], s[j - 1]))
    } else {
        row(w, s, n, j - 1)
    }
}

/// The overlapping pairs of `s` whose later member sits at index `m` or
/// beyond: for each such index from the last down, paired with each earlier
/// entity in order.
pub open spec fn rows(w: &World, s: Seq<EntityId>, m: int) -> Seq<(EntityId, EntityId)>
    decreases s.len() - m,
{
    if m >= s.len() || m < 0 {
        Seq::empty()
    } else {
        rows(w, s, m + 1) + row(w, s, m, m)
    }
}

/// The world-space bounds of `entity`, when it has both a `Collidable` and a
/// `Transform` and its moved outline stays within range.
pub fn get_translated_bounds(world: &World, entity: &EntityId) -> (r: Option<Vec<Point>>)
    requires
        world.wf(),
    ensures
        match r {
            Some(v) => entity_bounds(world, *entity) == Some(v@),
            None => entity_bounds(world, *entity).is_none(),
        },
        r matches Some(v) ==> bounded(v@),
{
    let transform = world.get::<Transform>(entity);
    let bounds = world.get::<Collidable>(entity);
    match (transform, bounds) {
        (Some(t), Some(c)) => {
            let local = &c.bounds;
            let mut out: Vec<Point> = Vec::new();
            let mut i: usize = 0;
            while i < local.len()
                invariant
                    0 <= i <= local@.len(),
                    Collidable::stored(world).contains_key(*entity),
                    Transform::stored(world).contains_key(*entity),
                    Collidable::stored(world)[*entity].bounds@ == local@,
                    Transform::stored(world)[*entity] == *t,
                    out@.len() == i,
                    forall|j: int| 0 <= j < i ==> #[trigger] shifted(local@[j], t.position).is_some(),
                    forall|j: int| 0 <= j < i ==> #[trigger] out@[j] == placed(local@[j], *t),
                    bounded(out@),
                decreases local@.len() - i,
            {
                let p = local[i];
                let x = p.x as i128 + t.position.x as i128;
                let y = p.y as i128 + t.position.y as i128;
                if x < -(COORD_LIMIT as i128) || x > COORD_LIMIT as i128 || y < -(COORD_LIMIT as i128) || y > COORD_LIMIT as i128 {
                    proof {
                        assert(!shifted(local@[i as int], t.position).is_some());
                        assert(Collidable::stored(world)[*entity].bounds@ == local@);
                        assert(Transform::stored(world)[*entity] == *t);
                        assert(world_bounds(local@, *t).is_none());
                    }
                    return None;
                }
                let q = Point { x: x as i64, y: y as i64 };
                let moved = rotation_transform(&q, t.rotation);
                let ghost before = out@;
                out.push(moved);
                proof {
                    assert forall|j: int| 0 <= j < out@.len() implies -2 * COORD_LIMIT <= #[trigger] out@[j].x <= 2 * COORD_LIMIT
                        && -2 * COORD_LIMIT <= out@[j].y <= 2 * COORD_LIMIT by {
                        if j < before.len() {
                            assert(out@[j] == before[j]);
                        }
                    }
                }
                i = i + 1;
            }
            proof {
                assert(out@ =~= local@.map_values(|p: Point| placed(p, *t)));
            }
            Some(out)
        },
        _ => None,
    }
}

fn add_collision(world: &mut World, entity1: &EntityId, entity2: &EntityId)
    requires
        old(world).wf(),
    ensures
        final(world).wf(),
        old(world).unchanged_except(final(world), ComponentKind::Collision),
        exists|c: EntityId|
            !old(world).is_live(c) && !old(world).issued().contains(c) && final(world).issued() == old(
                world,
            ).issued().insert(c) && final(world).order(ComponentKind::Collision) == old(
                world,
            ).order(ComponentKind::Collision).push(c) && #[trigger] Collision::stored(final(world))
                == Collision::stored(old(world)).insert(
                c,
                Collision { entity1: *entity1, entity2: *entity2 },
            ),
{
    let ghost w0 = *world;
    let collision = world.create_entity();
    let ghost mid = *world;
    proof {
        assert forall|k: ComponentKind| k != ComponentKind::Collision implies #[trigger] w0.kind_unchanged(&mid, k) by {
            assert(w0.kind_unchanged(&mid, k));
        }
        assert(w0.kind_unchanged(&mid, ComponentKind::Collision));
        w0.lemma_unchanged(&mid, ComponentKind::Collision);
        Collision::lemma_framed(&w0, &mid);
    }
    world.add(&collision, Collision::new(*entity1, *entity2));
    proof {
        World::lemma_unchanged_trans(&w0, &mid, world, ComponentKind::Collision);
        assert(mid.issued().insert(collision) =~= mid.issued());
        assert(!w0.has(ComponentKind::Collision, collision));
        assert(!mid.has(ComponentKind::Collision, collision));
        assert(world.order(ComponentKind::Collision) == w0.order(ComponentKind::Collision).push(collision));
    }
}

/// `p` is the pair `(s[j], s[i])` of an earlier `s[i]` with a later `s[j]`
/// that overlap.
pub open spec fn is_drawn_pair(w: &World, s: Seq<EntityId>, p: (EntityId, EntityId), i: int, j: int) -> bool {
    0 <= i < j < s.len() && p == (s[j], s[i]) && entities_overlap(w, s[j], s[i])
}

/// `p` is drawn with later member `s[n]` and earlier member before index `j`.
pub open spec fn drawn_before(w: &World, s: Seq<EntityId>, p: (EntityId, EntityId), n: int, j: int) -> bool {
    exists|i: int| i < j && #[trigger] is_drawn_pair(w, s, p, i, n)
}

/// `p` is drawn with later member at index `m` or beyond.
pub open spec fn drawn_from(w: &World, s: Seq<EntityId>, p: (EntityId, EntityId), m: int) -> bool {
    exists|i: int, j: int| m <= j && #[trigger] is_drawn_pair(w, s, p, i, j)
}

proof fn lemma_row(w: &World, s: Seq<EntityId>, n: int, j: int)
    requires
        0 <= j <= n < s.len(),
        s.no_duplicates(),
    ensures
        row(w, s, n, j).no_duplicates(),
        forall|k: int| 0 <= k < row(w, s, n, j).len() ==> #[trigger] drawn_before(w, s, row(w, s, n, j)[k], n, j),
        forall|i: int| 0 <= i < j && entities_overlap(w, s[n], s[i]) ==> #[trigger] row(w, s, n, j).contains((s[n], s[i])),
    decreases j,
{
    if j > 0 {
        lemma_row(w, s, n, j - 1);
        let prev = row(w, s, n, j - 1);
        let cur = row(w, s, n, j);
        if entities_overlap(w, s[n], s[j - 1]) {
            assert(cur == prev.push((s[n], s[j - 1])));
            assert(!prev.contains((s[n], s[j - 1]))) by {
                if prev.contains((s[n], s[j - 1])) {
                    let k = choose|k: int| 0 <= k < prev.len() && prev[k] == (s[n], s[j - 1]);
                    assert(drawn_before(w, s, prev[k], n, j - 1));
                    let i = choose|i: int| i < j - 1 && #[trigger] is_drawn_pair(w, s, prev[k], i, n);
                    assert(s[i] == s[j - 1]);
                }
            }
            assert forall|k: int| 0 <= k < cur.len() implies #[trigger] drawn_before(w, s, cur[k], n, j) by {
                if k < prev.len() {
                    assert(cur[k] == prev[k]);
                    assert(drawn_before(w, s, prev[k], n, j - 1));
                    let i = choose|i: int| i < j - 1 && #[trigger] is_drawn_pair(w, s, prev[k], i, n);
                    assert(is_drawn_pair(w, s, cur[k], i, n));
                } else {
                    assert(is_drawn_pair(w, s, cur[k], j - 1, n));
                }
            }
            assert forall|i: int| 0 <= i < j && entities_overlap(w, s[n], s[i]) implies #[trigger] cur.contains((s[n], s[i])) by {
                if i < j - 1 {
                    assert(row(w, s, n, j - 1).contains((s[n], s[i])));
                    let k = choose|k: int| 0 <= k < prev.len() && prev[k] == (s[n], s[i]);
                    assert(cur[k] == (s[n], s[i]));
                } else {
                    assert(cur[prev.len() as int] == (s[n], s[i]));
                }
            }
        } else {
            assert forall|k: int| 0 <= k < cur.len() implies #[trigger] drawn_before(w, s, cur[k], n, j) by {
                assert(drawn_before(w, s, prev[k], n, j - 1));
                let i = choose|i: int| i < j - 1 && #[trigger] is_drawn_pair(w, s, prev[k], i, n);
                assert(is_drawn_pair(w, s, cur[k], i, n));
            }
        }
    }
}

proof fn lemma_rows(w: &World, s: Seq<EntityId>, m: int)
    requires
        0 <= m <= s.len(),
        s.no_duplicates(),
    ensures
        rows(w, s, m).no_duplicates(),
        forall|k: int| 0 <= k < rows(w, s, m).len() ==> #[trigger] drawn_from(w, s, rows(w, s, m)[k], m),
        forall|i: int, j: int|
            0 <= i < j < s.len() && m <= j && entities_overlap(w, s[j], s[i]) ==> #[trigger] rows(w, s, m).contains(
                (s[j], s[i]),
            ),
    decreases s.len() - m,
{
    if m < s.len() {
        lemma_rows(w, s, m + 1);
        lemma_row(w, s, m, m);
        let later = rows(w, s, m + 1);
        let here = row(w, s, m, m);
        let all = rows(w, s, m);
        assert(all == later + here);
        assert forall|k: int| 0 <= k < all.len() implies #[trigger] drawn_from(w, s, all[k], m) by {
            if k < later.len() {
                assert(all[k] == later[k]);
                assert(drawn_from(w, s, later[k], m + 1));
                let (i, j) = choose|i: int, j: int| m + 1 <= j && #[trigger] is_drawn_pair(w, s, later[k], i, j);
                assert(is_drawn_pair(w, s, all[k], i, j));
            } else {
                assert(all[k] == here[k - later.len()]);
                assert(drawn_before(w, s, here[k - later.len()], m, m));
                let i = choose|i: int| i < m && #[trigger] is_drawn_pair(w, s, here[k - later.len()], i, m);
                assert(is_drawn_pair(w, s, all[k], i, m));
            }
        }
        assert forall|a: int, b: int| 0 <= a < b < all.len() implies all[a] != all[b] by {
            if b < later.len() {
                assert(later[a] != later[b]);
            } else if a >= later.len() {
                assert(here[a - later.len()] != here[b - later.len()]);
            } else {
                assert(drawn_from(w, s, later[a], m + 1));
                assert(drawn_before(w, s, here[b - later.len()], m, m));
                let (i1, j1) = choose|i: int, j: int| m + 1 <= j && #[trigger] is_drawn_pair(w, s, later[a], i, j);
                let i2 = choose|i: int| i < m && #[trigger] is_drawn_pair(w, s, here[b - later.len()], i, m);
                assert(s[j1] != s[m]);
            }
        }
        assert forall|i: int, j: int|
            0 <= i < j < s.len() && m <= j && entities_overlap(w, s[j], s[i]) implies #[trigger] all.contains((s[j], s[i])) by {
            if j > m {
                assert(rows(w, s, m + 1).contains((s[j], s[i])));
                let k = choose|k: int| 0 <= k < later.len() && later[k] == (s[j], s[i]);
                assert(all[k] == (s[j], s[i]));
            } else {
                assert(here.contains((s[m], s[i])));
                let k = choose|k: int| 0 <= k < here.len() && here[k] == (s[m], s[i]);
                assert(all[later.len() + k] == (s[j], s[i]));
            }
        }
    }
}

/// Over distinct entities `s`, the pairs drawn are exactly the overlapping
/// pairs, each unordered pair at most once, never also in reverse.
pub proof fn lemma_each_pair_once(w: &World, s: Seq<EntityId>)
    requires
        s.no_duplicates(),
    ensures
        rows(w, s, 0).no_duplicates(),
        forall|k: int| 0 <= k < rows(w, s, 0).len() ==> #[trigger] drawn_from(w, s, rows(w, s, 0)[k], 0),
        forall|i: int, j: int|
            0 <= i < j < s.len() && entities_overlap(w, s[j], s[i]) ==> #[trigger] rows(w, s, 0).contains((s[j], s[i])),
        forall|k1: int, k2: int|
            0 <= k1 < rows(w, s, 0).len() && 0 <= k2 < rows(w, s, 0).len() ==> #[trigger] rows(w, s, 0)[k1]
                != (#[trigger] rows(w, s, 0)[k2].1, rows(w, s, 0)[k2].0),
{
    lemma_rows(w, s, 0);
    let all = rows(w, s, 0);
    assert forall|k1: int, k2: int| 0 <= k1 < all.len() && 0 <= k2 < all.len() implies #[trigger] all[k1]
        != (#[trigger] all[k2].1, all[k2].0) by {
        assert(drawn_from(w, s, all[k1], 0));
        assert(drawn_from(w, s, all[k2], 0));
        let (i1, j1) = choose|i: int, j: int| 0 <= j && #[trigger] is_drawn_pair(w, s, all[k1], i, j);
        let (i2, j2) = choose|i: int, j: int| 0 <= j && #[trigger] is_drawn_pair(w, s, all[k2], i, j);
        if all[k1] == (all[k2].1, all[k2].0) {
            assert(s[j1] == s[i2]);
            assert(s[i1] == s[j2]);
        }
    }
}

/// `after` is `before` with one new `Collision` entity for each overlapping
/// pair of `s`, in the order of `rows`, each under an identity that no
/// entity of `before` holds; nothing else changed.
pub open spec fn detected(before: &World, after: &World, s: Seq<EntityId>) -> bool {
    let pairs = rows(before, s, 0);
    let base = before.order(ComponentKind::Collision);
    let now = after.order(ComponentKind::Collision);
    &&& before.unchanged_except(after, ComponentKind::Collision)
    &&& before.issued().subset_of(after.issued())
    &&& now.len() == base.len() + pairs.len()
    &&& now.subrange(0, base.len() as int) == base
    &&& forall|i: int|
        0 <= i < pairs.len() ==> !before.issued().contains(#[trigger] now[base.len() + i])
            && Collision::stored(after)[now[base.len() + i]] == (Collision {
            entity1: pairs[i].0,
            entity2: pairs[i].1,
        })
    &&& forall|e: EntityId|
        #[trigger] Collision::stored(before).contains_key(e) ==> Collision::stored(after).contains_key(e)
            && Collision::stored(after)[e] == Collision::stored(before)[e]
}

/// Records every overlapping pair of collidable, placed entities as a new
/// `Collision` entity; `s` is the order in which the pairs were drawn.
pub fn detect_collisions(world: &mut World)
    requires
        old(world).wf(),
    ensures
        final(world).wf(),
        exists|s: Seq<EntityId>|
            s.no_duplicates() && s.to_set() == old(world).holding_all(
                seq![ComponentKind::Collidable, ComponentKind::Transform],
            ) && #[trigger] detected(old(world), final(world), s),
{
    let ghost w0 = *world;
    let entities = world.entities_with(vec![ComponentKind::Collidable, ComponentKind::Transform]);
    let ghost s = entities@;
    let len = entities.len();
    let mut bounds: Vec<Option<Vec<Point>>> = Vec::new();
    let mut i: usize = 0;
    while i < len
        invariant
            world.wf(),
            *world == w0,
            len == s.len(),
            entities@ == s,
            0 <= i <= len,
            bounds@.len() == i,
            forall|j: int|
                0 <= j < i ==> match #[trigger] bounds@[j] {
                    Some(v) => entity_bounds(&w0, s[j]) == Some(v@) && bounded(v@),
                    None => entity_bounds(&w0, s[j]).is_none(),
                },
        decreases len - i,
    {
        bounds.push(get_translated_bounds(world, &entities[i]));
        i = i + 1;
    }
    let ghost base = w0.order(ComponentKind::Collision);
    let ghost mut ids: Seq<EntityId> = Seq::empty();
    proof {
        w0.lemma_unchanged_refl(ComponentKind::Collision);
        assert(base + ids =~= base);
    }
    let mut n: usize = len;
    while n > 0
        invariant
            world.wf(),
            len == s.len(),
            entities@ == s,
            bounds@.len() == len,
            forall|j: int|
                0 <= j < len ==> match #[trigger] bounds@[j] {
                    Some(v) => entity_bounds(&w0, s[j]) == Some(v@) && bounded(v@),
                    None => entity_bounds(&w0, s[j]).is_none(),
                },
            0 <= n <= len,
            w0.unchanged_except(world, ComponentKind::Collision),
            w0.issued().subset_of(world.issued()),
            forall|k: ComponentKind, e: EntityId| w0.has(k, e) ==> #[trigger] world.has(k, e),
            world.order(ComponentKind::Collision) == base + ids,
            ids.len() == rows(&w0, s, n as int).len(),
            forall|j: int|
                0 <= j < ids.len() ==> !w0.issued().contains(#[trigger] ids[j]) && Collision::stored(world)[ids[j]]
                    == (Collision {
                    entity1: rows(&w0, s, n as int)[j].0,
                    entity2: rows(&w0, s, n as int)[j].1,
                }),
            forall|e: EntityId|
                #[trigger] Collision::stored(&w0).contains_key(e) ==> Collision::stored(world).contains_key(e)
                    && Collision::stored(world)[e] == Collision::stored(&w0)[e],
        decreases n,
    {
        n = n - 1;
        let e1 = entities[n];
        let mut j: usize = 0;
        while j < n
            invariant
                world.wf(),
                len == s.len(),
                entities@ == s,
                bounds@.len() == len,
                forall|x: int|
                    0 <= x < len ==> match #[trigger] bounds@[x] {
                        Some(v) => entity_bounds(&w0, s[x]) == Some(v@) && bounded(v@),
                        None => entity_bounds(&w0, s[x]).is_none(),
                    },
                0 <= j <= n < len,
                e1 == s[n as int],
                w0.unchanged_except(world, ComponentKind::Collision),
                w0.issued().subset_of(world.issued()),
                forall|k: ComponentKind, e: EntityId| w0.has(k, e) ==> #[trigger] world.has(k, e),
                world.order(ComponentKind::Collision) == base + ids,
                ids.len() == (rows(&w0, s, n + 1) + row(&w0, s, n as int, j as int)).len(),
                forall|x: int|
                    0 <= x < ids.len() ==> !w0.issued().contains(#[trigger] ids[x]) && Collision::stored(world)[ids[x]]
                        == (Collision {
                        entity1: (rows(&w0, s, n + 1) + row(&w0, s, n as int, j as int))[x].0,
                        entity2: (rows(&w0, s, n + 1) + row(&w0, s, n as int, j as int))[x].1,
                    }),
                forall|e: EntityId|
                    #[trigger] Collision::stored(&w0).contains_key(e) ==> Collision::stored(world).contains_key(e)
                        && Collision::stored(world)[e] == Collision::stored(&w0)[e],
            decreases n - j,
        {
            let e2 = entities[j];
            let ghost acc = rows(&w0, s, n + 1) + row(&w0, s, n as int, j as int);
            let ghost next = rows(&w0, s, n + 1) + row(&w0, s, n as int, j + 1);
            let hit = match (&bounds[n], &bounds[j]) {
                (Some(b1), Some(b2)) => overlaps(b1, b2),
                _ => false,
            };
            assert(hit == entities_overlap(&w0, s[n as int], s[j as int]));
            if hit {
                let ghost before = *world;
                add_collision(world, &e1, &e2);
                proof {
                    let c = choose|c: EntityId|
                        !before.is_live(c) && !before.issued().contains(c) && world.issued() == before.issued().insert(c) && world.order(ComponentKind::Collision) == before.order(
                            ComponentKind::Collision,
                        ).push(c) && #[trigger] Collision::stored(world) == Collision::stored(&before).insert(
                            c,
                            Collision { entity1: e1, entity2: e2 },
                        );
                    World::lemma_unchanged_trans(&w0, &before, world, ComponentKind::Collision);
                    assert forall|k: ComponentKind, e: EntityId| w0.has(k, e) implies #[trigger] world.has(k, e) by {
                        assert(before.has(k, e));
                        if k != ComponentKind::Collision {
                            assert(before.kind_unchanged(world, k));
                            before.lemma_unchanged(world, k);
                        } else {
                            before.lemma_order(k);
                            world.lemma_order(k);
                            assert(before.order(k).contains(e));
                            let idx = choose|idx: int| 0 <= idx < before.order(k).len() && before.order(k)[idx] == e;
                            assert(world.order(k)[idx] == e);
                            assert(world.order(k).contains(e));
                        }
                    }
                    assert forall|x: int| 0 <= x < ids.len() implies ids[x] != c by {
                        before.lemma_order(ComponentKind::Collision);
                        assert(before.order(ComponentKind::Collision)[base.len() + x] == ids[x]);
                        assert(before.order(ComponentKind::Collision).contains(ids[x]));
                        assert(before.has(ComponentKind::Collision, ids[x]));
                    }
                    assert forall|e: EntityId| #[trigger] Collision::stored(&w0).contains_key(e) implies e != c by {
                        Collision::lemma_stored(&w0);
                        assert(w0.has(ComponentKind::Collision, e));
                        assert(before.has(ComponentKind::Collision, e));
                    }
                    assert(!w0.issued().contains(c));
                    let old_ids = ids;
                    ids = ids.push(c);
                    assert(world.order(ComponentKind::Collision) =~= base + ids);
                    assert(next =~= acc.push((e1, e2)));
                    assert forall|x: int| 0 <= x < ids.len() implies !w0.issued().contains(#[trigger] ids[x]) && Collision::stored(world)[ids[x]]
                        == (Collision { entity1: next[x].0, entity2: next[x].1 }) by {
                        if x < old_ids.len() {
                            assert(ids[x] == old_ids[x]);
                            assert(old_ids[x] != c);
                            assert(next[x] == acc[x]);
                        } else {
                            assert(ids[x] == c);
                        }
                    }
                }
            } else {
                proof {
                    assert(next =~= acc);
                }
            }
            j = j + 1;
        }
        proof {
            assert(rows(&w0, s, n as int) == rows(&w0, s, n + 1) + row(&w0, s, n as int, n as int));
        }
    }
    proof {
        let now = world.order(ComponentKind::Collision);
        assert(now.subrange(0, base.len() as int) =~= base);
        assert forall|i: int| 0 <= i < rows(&w0, s, 0).len() implies !w0.issued().contains(#[trigger] now[base.len() + i])
            && Collision::stored(world)[now[base.len() + i]] == (Collision {
            entity1: rows(&w0, s, 0)[i].0,
            entity2: rows(&w0, s, 0)[i].1,
        }) by {
            assert(now[base.len() + i] == ids[i]);
        }
        assert(detected(&w0, world, s));
    }
}

/// `after` is `before` once last tick's collision signals are gone and
/// this tick's are recorded.
pub open spec fn collision_step(before: &World, after: &World) -> bool {
    &&& exists|cleared: World, s: Seq<EntityId>|
        {
            &&& cleared.wf()
            &&& cleared.issued() == before.issued()
            &&& forall|k: ComponentKind| #[trigger] before.kind_removed_all(&cleared, k, before.dom(ComponentKind::Collision))
            &&& forall|e: EntityId| !#[trigger] cleared.has(ComponentKind::Collision, e)
            &&& s.no_duplicates()
            &&& s.to_set() == cleared.holding_all(seq![ComponentKind::Collidable, ComponentKind::Transform])
            &&& detected(&cleared, after, s)
        }
}

/// Detects this tick's collisions.
pub struct CollisionSystem;

impl CollisionSystem {
    /// Deletes last tick's `Collision` entities, then records a new one for
    /// every overlapping pair of entities that have both a `Collidable` and a
    /// `Transform`, each pair once.
    pub fn update(world: &mut World)
        requires
            old(world).wf(),
        ensures
            final(world).wf(),
            collision_step(old(world), final(world)),
    {
        world.clear::<Collision>();
        let ghost cleared = *world;
        detect_collisions(world);
    }
}

} // verus!
