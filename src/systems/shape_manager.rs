use crate::components::{Damaged, Tag, TagType, Transform};
use crate::entity::{build_shape, shape_kinds, EntityId};
use crate::iter::{lemma_first_occurrences, unique};
use crate::world::{Component, ComponentKind, World};
use vstd::prelude::*;

verus! {

broadcast use vstd::laws_eq::group_laws_eq;

/// The level of entity `e` when it is tagged as a shape.
pub open spec fn shape_level(w: &World, e: EntityId) -> Option<u8> {
    if Tag::stored(w).contains_key(e) {
        match Tag::stored(w)[e].tag_type {
            TagType::Shape(level) => Some(level),
            _ => None,
        }
    } else {
        None
    }
}

/// Some stored `Damaged` signal names `x`.
pub open spec fn is_signalled(w: &World, x: EntityId) -> bool {
    exists|d: EntityId| #[trigger] Damaged::stored(w).contains_key(d) && Damaged::stored(w)[d].entity == x
}

/// `x` is a shape that some `Damaged` signal names.
pub open spec fn damaged_shape(w: &World, x: EntityId) -> bool {
    is_signalled(w, x) && shape_level(w, x).is_some()
}

proof fn lemma_insert_fresh<V>(a: Map<EntityId, V>, b: Map<EntityId, V>, n: EntityId)
    requires
        b.remove(n) == a.remove(n),
        b.contains_key(n),
        !a.contains_key(n),
    ensures
        b == a.insert(n, b[n]),
{
    let c = a.insert(n, b[n]);
    assert forall|k: EntityId| #[trigger] b.contains_key(k) == c.contains_key(k) by {
        if k != n {
            assert(b.remove(n).contains_key(k) == b.contains_key(k));
            assert(a.remove(n).contains_key(k) == a.contains_key(k));
        }
    }
    assert forall|k: EntityId| #[trigger] b.contains_key(k) implies b[k] == c[k] by {
        if k != n {
            assert(b.remove(n).contains_key(k));
            assert(b.remove(n)[k] == b[k]);
            assert(a.remove(n)[k] == a[k]);
        }
    }
    assert(b =~= c);
}

/// The entity spawned, as a set.
pub open spec fn born_of(r: Option<EntityId>) -> Set<EntityId> {
    match r {
        Some(n) => set![n],
        None => Set::empty(),
    }
}

/// Destroys the shape `entity`; when its level is above 1 and it has a
/// position, spawns one shape of the level below at that position and
/// returns it. An entity that is not a shape is left alone.
pub fn split_shape(world: &mut World, entity: &EntityId) -> (r: Option<EntityId>)
    requires
        old(world).wf(),
    ensures
        final(world).wf(),
        shape_level(old(world), *entity).is_none() ==> *final(world) == *old(world) && r.is_none(),
        shape_level(old(world), *entity) matches Some(level) ==> {
            &&& r.is_some() == (level > 1 && Transform::stored(old(world)).contains_key(*entity))
            &&& !final(world).is_live(*entity)
            &&& forall|k: ComponentKind, x: EntityId|
                x != *entity && r != Some(x) ==> #[trigger] final(world).has(k, x) == old(world).has(k, x)
            &&& old(world).rebuilt(final(world), set![*entity], born_of(r))
            &&& final(world).issued() == old(world).issued().union(born_of(r))
            &&& r matches Some(n) ==> {
                &&& !old(world).is_live(n)
                &&& !old(world).issued().contains(n)
                &&& n != *entity
                &&& forall|k: ComponentKind| #[trigger] final(world).has(k, n) == shape_kinds().contains(k)
                &&& Tag::stored(final(world)) == Tag::stored(old(world)).remove(*entity).insert(
                    n,
                    Tag { tag_type: TagType::Shape((level - 1) as u8) },
                )
                &&& Transform::stored(final(world)) == Transform::stored(old(world)).remove(*entity).insert(
                    n,
                    Transform { position: Transform::stored(old(world))[*entity].position, rotation: 0 },
                )
            }
            &&& r.is_none() ==> {
                &&& forall|k: ComponentKind| !#[trigger] final(world).has(k, *entity)
                &&& Tag::stored(final(world)) == Tag::stored(old(world)).remove(*entity)
                &&& Transform::stored(final(world)) == Transform::stored(old(world)).remove(*entity)
            }
        },
{
    let level = match world.get::<Tag>(entity) {
        Some(t) => match t.tag_type {
            TagType::Shape(l) => Some(l),
            _ => None,
        },
        None => None,
    };
    let level = match level {
        Some(l) => l,
        None => {
            return None;
        },
    };
    let position = match world.get::<Transform>(entity) {
        Some(t) => Some(t.position),
        None => None,
    };
    let ghost w0 = *world;
    let spawned = match position {
        Some(p) => {
            if level > 1 {
                build_shape(world, level - 1, p)
            } else {
                None
            }
        },
        None => None,
    };
    let ghost w1 = *world;
    proof {
        if let Some(n) = spawned {
            World::lemma_extended_has(&w0, &w1, n, shape_kinds());
            Tag::lemma_extended_stored(&w0, &w1, n, shape_kinds());
            Transform::lemma_extended_stored(&w0, &w1, n, shape_kinds());
            Tag::lemma_stored(&w0);
            Transform::lemma_stored(&w0);
            assert(w0.has(ComponentKind::Tag, *entity));
            assert(n != *entity);
            assert(!w0.has(ComponentKind::Tag, n));
            assert(!w0.has(ComponentKind::Transform, n));
            lemma_insert_fresh(Tag::stored(&w0), Tag::stored(&w1), n);
            lemma_insert_fresh(Transform::stored(&w0), Transform::stored(&w1), n);
        }
    }
    world.remove(entity);
    proof {
        assert forall|k: ComponentKind| #[trigger] w0.kind_rebuilt(world, k, set![*entity], born_of(spawned)) by {
            if let Some(n) = spawned {
                World::lemma_rebuilt_extended(&w0, &w1, n, shape_kinds(), k);
            } else {
                w0.lemma_kind_unchanged_refl();
                World::lemma_rebuilt_unchanged(&w0, &w1, k);
            }
            assert(w1.kind_removed(world, k, *entity));
            World::lemma_rebuilt_removed(&w1, world, *entity, k);
            World::lemma_rebuilt_trans(&w0, &w1, world, k, Set::empty(), born_of(spawned), set![*entity], Set::empty());
            assert(Set::<EntityId>::empty().union(set![*entity]) =~= set![*entity]);
            assert(born_of(spawned).union(Set::empty()) =~= born_of(spawned));
        }
        if spawned.is_none() {
            assert(w0.issued().union(Set::empty()) =~= w0.issued());
        } else {
            assert(w0.issued().union(born_of(spawned)) =~= w0.issued().insert(spawned.unwrap()));
        }
        assert(w1.kind_removed(world, ComponentKind::Tag, *entity));
        assert(w1.kind_removed(world, ComponentKind::Transform, *entity));
        Tag::lemma_removed(&w1, world, *entity);
        Transform::lemma_removed(&w1, world, *entity);
        if let Some(n) = spawned {
            assert(Tag::stored(world) =~= Tag::stored(&w0).remove(*entity).insert(
                n,
                Tag { tag_type: TagType::Shape((level - 1) as u8) },
            ));
            assert(Transform::stored(world) =~= Transform::stored(&w0).remove(*entity).insert(
                n,
                Transform { position: Transform::stored(&w0)[*entity].position, rotation: 0 },
            ));
        } else {
            assert(Tag::stored(world) =~= Tag::stored(&w0).remove(*entity));
            assert(Transform::stored(world) =~= Transform::stored(&w0).remove(*entity));
        }
    }
    spawned
}

/// The entities named by the stored `Damaged` signals, in order.
pub fn signalled_entities(world: &World) -> (r: Vec<EntityId>)
    requires
        world.wf(),
    ensures
        forall|x: EntityId| #[trigger] r@.contains(x) <==> is_signalled(world, x),
{
    let signals = world.components::<Damaged>();
    let ghost order = world.order(ComponentKind::Damaged);
    let mut out: Vec<EntityId> = Vec::new();
    let mut i: usize = 0;
    while i < signals.len()
        invariant
            world.wf(),
            0 <= i <= signals@.len(),
            signals@.len() == order.len(),
            order == world.order(ComponentKind::Damaged),
            forall|j: int| 0 <= j < signals@.len() ==> *#[trigger] signals@[j] == Damaged::stored(world)[order[j]],
            out@.len() == i,
            forall|j: int| 0 <= j < i ==> #[trigger] out@[j] == signals@[j].entity,
        decreases signals@.len() - i,
    {
        out.push(signals[i].entity);
        i = i + 1;
    }
    proof {
        world.lemma_order(ComponentKind::Damaged);
        Damaged::lemma_stored(world);
        assert forall|x: EntityId| #[trigger] out@.contains(x) <==> is_signalled(world, x) by {
            if out@.contains(x) {
                let j = choose|j: int| 0 <= j < out@.len() && out@[j] == x;
                assert(order.contains(order[j]));
                assert(Damaged::stored(world).contains_key(order[j]));
            }
            if is_signalled(world, x) {
                let d = choose|d: EntityId| #[trigger] Damaged::stored(world).contains_key(d) && Damaged::stored(world)[d].entity == x;
                assert(world.has(ComponentKind::Damaged, d));
                assert(order.contains(d));
                let j = choose|j: int| 0 <= j < order.len() && order[j] == d;
                assert(out@[j] == x);
            }
        }
    }
    out
}

/// `x` is a damaged shape that will split: its level is above 1 and it
/// has a position.
pub open spec fn splittable(w: &World, x: EntityId) -> bool {
    &&& damaged_shape(w, x)
    &&& shape_level(w, x).unwrap() > 1
    &&& Transform::stored(w).contains_key(x)
}

/// The damaged shapes of `w`.
pub open spec fn damaged_shapes(w: &World) -> Set<EntityId> {
    Set::new(|x: EntityId| damaged_shape(w, x))
}

/// The shapes that split, in the order of `r`.
pub open spec fn split_sources(r: Seq<(EntityId, EntityId)>) -> Seq<EntityId> {
    r.map_values(|p: (EntityId, EntityId)| p.0)
}

/// The shapes spawned, as a set.
pub open spec fn spawned_set(r: Seq<(EntityId, EntityId)>) -> Set<EntityId> {
    r.map_values(|p: (EntityId, EntityId)| p.1).to_set()
}

/// `p.1` is a new shape in `after`, one level below the shape `p.0` of
/// `before`, at its position.
pub open spec fn spawned_from(before: &World, after: &World, p: (EntityId, EntityId)) -> bool {
    &&& !before.issued().contains(p.1)
    &&& forall|k: ComponentKind| #[trigger] after.has(k, p.1) == shape_kinds().contains(k)
    &&& Tag::stored(after)[p.1] == (Tag { tag_type: TagType::Shape((shape_level(before, p.0).unwrap() - 1) as u8) })
    &&& Transform::stored(after)[p.1] == (Transform { position: Transform::stored(before)[p.0].position, rotation: 0 })
}

/// `after` is `before` with every damaged shape gone and, for each one that
/// splits, exactly one new shape in `r` (paired with the shape it came
/// from); every other component is as it was.
pub open spec fn shape_step(before: &World, after: &World, r: Seq<(EntityId, EntityId)>) -> bool {
    &&& before.rebuilt(after, damaged_shapes(before), spawned_set(r))
    &&& forall|k: ComponentKind, x: EntityId| damaged_shape(before, x) ==> !#[trigger] after.has(k, x)
    &&& split_sources(r).no_duplicates()
    &&& forall|x: EntityId| #[trigger] split_sources(r).contains(x) <==> splittable(before, x)
    &&& r.map_values(|p: (EntityId, EntityId)| p.1).no_duplicates()
    &&& forall|i: int| 0 <= i < r.len() ==> #[trigger] spawned_from(before, after, r[i])
    &&& after.issued() == before.issued().union(spawned_set(r))
}

/// Splits the shapes that took damage this tick.
pub struct ShapeManager;

impl ShapeManager {
    /// Splits every damaged shape once, however often it was signalled (see
    /// `split_shape`), and returns each shape that split with the one
    /// spawned in its place.
    pub fn update(world: &mut World) -> (r: Vec<(EntityId, EntityId)>)
        requires
            old(world).wf(),
        ensures
            final(world).wf(),
            shape_step(old(world), final(world), r@),
    {
        let ghost w0 = *world;
        let signalled = signalled_entities(world);
        let ghost signalled_view = signalled@;
        let named = unique(signalled);
        proof {
            lemma_first_occurrences(signalled_view);
        }
        let mut shapes: Vec<EntityId> = Vec::new();
        let mut i: usize = 0;
        while i < named.len()
            invariant
                world.wf(),
                *world == w0,
                0 <= i <= named@.len(),
                named@.no_duplicates(),
                forall|x: EntityId| #[trigger] named@.contains(x) <==> is_signalled(&w0, x),
                shapes@.no_duplicates(),
                forall|x: EntityId| #[trigger] shapes@.contains(x) <==> (named@.subrange(0, i as int).contains(x) && shape_level(&w0, x).is_some()),
            decreases named@.len() - i,
        {
            let x = named[i];
            let is_shape = match world.get::<Tag>(&x) {
                Some(t) => match t.tag_type {
                    TagType::Shape(_) => true,
                    _ => false,
                },
                None => false,
            };
            let ghost pre = named@.subrange(0, i as int);
            let ghost post = named@.subrange(0, i + 1);
            let ghost old_shapes = shapes@;
            proof {
                assert(is_shape == shape_level(&w0, x).is_some());
                assert(post =~= pre.push(x));
                assert(!pre.contains(x)) by {
                    if pre.contains(x) {
                        let j = choose|j: int| 0 <= j < pre.len() && pre[j] == x;
                        assert(named@[j] == named@[i as int]);
                    }
                }
                assert forall|y: EntityId| #[trigger] post.contains(y) == (pre.contains(y) || y == x) by {
                    if pre.contains(y) {
                        let j = choose|j: int| 0 <= j < pre.len() && pre[j] == y;
                        assert(post[j] == y);
                    }
                    if post.contains(y) && y != x {
                        let j = choose|j: int| 0 <= j < post.len() && post[j] == y;
                        assert(pre[j] == y);
                    }
                    if y == x {
                        assert(post[i as int] == y);
                    }
                }
            }
            if !is_shape {
                proof {
                    assert forall|y: EntityId| #[trigger] shapes@.contains(y) == (post.contains(y) && shape_level(&w0, y).is_some()) by {
                        assert(old_shapes.contains(y) == (pre.contains(y) && shape_level(&w0, y).is_some()));
                        assert(post.contains(y) == (pre.contains(y) || y == x));
                    }
                }
            }
            if is_shape {
                shapes.push(x);
                proof {
                    assert forall|y: EntityId| #[trigger] shapes@.contains(y) == (post.contains(y) && shape_level(&w0, y).is_some()) by {
                        assert(old_shapes.contains(y) == (pre.contains(y) && shape_level(&w0, y).is_some()));
                        assert(post.contains(y) == (pre.contains(y) || y == x));
                        assert(shapes@ == old_shapes.push(x));
                        if shapes@.contains(y) && y != x {
                            let j = choose|j: int| 0 <= j < shapes@.len() && shapes@[j] == y;
                            assert(old_shapes[j] == y);
                        }
                        if y == x {
                            assert(shapes@[shapes@.len() - 1] == y);
                        }
                        if y != x && post.contains(y) && shape_level(&w0, y).is_some() {
                            assert(old_shapes.contains(y));
                            let j = choose|j: int| 0 <= j < old_shapes.len() && old_shapes[j] == y;
                            assert(shapes@[j] == y);
                        }
                    }
                    assert(shapes@.no_duplicates()) by {
                        assert(!old_shapes.contains(x));
                        assert forall|a: int, b: int| 0 <= a < b < shapes@.len() implies shapes@[a] != shapes@[b] by {
                            if b == shapes@.len() - 1 {
                                assert(old_shapes[a] == shapes@[a]);
                            } else {
                                assert(old_shapes[a] == shapes@[a]);
                                assert(old_shapes[b] == shapes@[b]);
                            }
                        }
                    }
                }
            }
            i = i + 1;
        }
        proof {
            assert(named@.subrange(0, i as int) =~= named@);
        }
        let ghost list = shapes@;
        proof {
            assert forall|m: int| 0 <= m < list.len() implies #[trigger] Tag::stored(world).contains_key(list[m])
                && Tag::stored(world)[list[m]] == Tag::stored(&w0)[list[m]] by {
                assert(list.contains(list[m]));
                assert(shape_level(&w0, list[m]).is_some());
            }
            assert forall|x: EntityId| #[trigger] list.contains(x) <==> damaged_shape(&w0, x) by {
                assert(named@.contains(x) <==> is_signalled(&w0, x));
            }
            assert forall|k: ComponentKind| #[trigger] w0.kind_rebuilt(world, k, Set::empty(), Set::empty()) by {
                w0.lemma_kind_unchanged_refl();
                World::lemma_rebuilt_unchanged(&w0, world, k);
            }
            assert(list.subrange(0, 0).to_set() =~= Set::<EntityId>::empty());
            assert(spawned_set(Seq::<(EntityId, EntityId)>::empty()) =~= Set::<EntityId>::empty());
            assert(w0.issued().union(Set::empty()) =~= w0.issued());
            w0.lemma_live_issued();
        }
        let mut spawned: Vec<(EntityId, EntityId)> = Vec::new();
        let mut j: usize = 0;
        while j < shapes.len()
            invariant
                world.wf(),
                w0.wf(),
                0 <= j <= list.len(),
                shapes@ == list,
                list.no_duplicates(),
                forall|x: EntityId| #[trigger] list.contains(x) <==> damaged_shape(&w0, x),
                forall|x: EntityId| #[trigger] w0.is_live(x) ==> w0.issued().contains(x),
                forall|m: int|
                    j <= m < list.len() ==> #[trigger] Tag::stored(world).contains_key(list[m])
                        && Tag::stored(world)[list[m]] == Tag::stored(&w0)[list[m]]
                        && Transform::stored(world).contains_key(list[m]) == Transform::stored(&w0).contains_key(list[m])
                        && Transform::stored(world)[list[m]] == Transform::stored(&w0)[list[m]],
                forall|k: ComponentKind| #[trigger] w0.kind_rebuilt(world, k, list.subrange(0, j as int).to_set(), spawned_set(spawned@)),
                world.issued() == w0.issued().union(spawned_set(spawned@)),
                split_sources(spawned@).no_duplicates(),
                forall|x: EntityId| #[trigger] split_sources(spawned@).contains(x) <==> (list.subrange(0, j as int).contains(x) && splittable(&w0, x)),
                spawned@.map_values(|p: (EntityId, EntityId)| p.1).no_duplicates(),
                forall|i: int| 0 <= i < spawned@.len() ==> #[trigger] spawned_from(&w0, world, spawned@[i]),
            decreases list.len() - j,
        {
            let x = shapes[j];
            proof {
                assert(x == list[j as int]);
                assert(Tag::stored(world).contains_key(list[j as int]));
            }
            let ghost before = *world;
            let ghost pairs = spawned@;
            proof {
                Tag::lemma_stored(&before);
                assert(list.contains(list[j as int]));
                assert(damaged_shape(&w0, x));
                assert(before.has(ComponentKind::Tag, x));
                assert(shape_level(&before, x) == shape_level(&w0, x));
            }
            let made = split_shape(world, &x);
            if let Some(n) = made {
                spawned.push((x, n));
            }
            proof {
                let level = shape_level(&before, x).unwrap();
                let pre = list.subrange(0, j as int);
                let post = list.subrange(0, j + 1);
                assert(post =~= pre.push(x));
                assert(!pre.contains(x)) by {
                    if pre.contains(x) {
                        let q = choose|q: int| 0 <= q < pre.len() && pre[q] == x;
                        assert(list[q] == list[j as int]);
                    }
                }
                assert(post.to_set() =~= pre.to_set().union(set![x])) by {
                    assert forall|y: EntityId| post.to_set().contains(y) == pre.to_set().union(set![x]).contains(y) by {
                        if pre.contains(y) {
                            let q = choose|q: int| 0 <= q < pre.len() && pre[q] == y;
                            assert(post[q] == y);
                        }
                        if post.contains(y) && y != x {
                            let q = choose|q: int| 0 <= q < post.len() && post[q] == y;
                            assert(pre[q] == y);
                        }
                        if y == x {
                            assert(post[j as int] == y);
                        }
                    }
                }
                assert(spawned_set(spawned@) =~= spawned_set(pairs).union(born_of(made))) by {
                    if let Some(n) = made {
                        assert(spawned@ == pairs.push((x, n)));
                        assert(spawned@.map_values(|p: (EntityId, EntityId)| p.1) =~= pairs.map_values(|p: (EntityId, EntityId)| p.1).push(n));
                        lemma_push_to_set(pairs.map_values(|p: (EntityId, EntityId)| p.1), n);
                    } else {
                        assert(spawned_set(pairs).union(Set::empty()) =~= spawned_set(pairs));
                    }
                }
                assert forall|k: ComponentKind| #[trigger] w0.kind_rebuilt(world, k, post.to_set(), spawned_set(spawned@)) by {
                    World::lemma_rebuilt_trans(&w0, &before, world, k, pre.to_set(), spawned_set(pairs), set![x], born_of(made));
                }
                assert(world.issued() =~= w0.issued().union(spawned_set(spawned@)));
                // the new shape is fresh with respect to everything issued before
                if let Some(n) = made {
                    assert(!before.issued().contains(n));
                    assert(n != x);
                    assert forall|q: int| 0 <= q < pairs.len() implies pairs[q].1 != n by {
                        assert(pairs.map_values(|p: (EntityId, EntityId)| p.1)[q] == pairs[q].1);
                        assert(spawned_set(pairs).contains(pairs[q].1));
                    }
                    assert(spawned@.map_values(|p: (EntityId, EntityId)| p.1) =~= pairs.map_values(|p: (EntityId, EntityId)| p.1).push(n));
                    assert(split_sources(spawned@) =~= split_sources(pairs).push(x));
                    assert(!split_sources(pairs).contains(x)) by {
                        if split_sources(pairs).contains(x) {
                            assert(pre.contains(x));
                        }
                    }
                }
                assert(splittable(&w0, x) == made.is_some());
                assert forall|y: EntityId| #[trigger] split_sources(spawned@).contains(y) <==> (post.contains(y) && splittable(&w0, y)) by {
                    assert(post.to_set().contains(y) == post.contains(y));
                    assert(pre.to_set().contains(y) == pre.contains(y));
                    assert(post.contains(y) == (pre.contains(y) || y == x));
                    assert(split_sources(pairs).contains(y) <==> (pre.contains(y) && splittable(&w0, y)));
                    if let Some(n) = made {
                        assert(split_sources(spawned@) == split_sources(pairs).push(x));
                        if split_sources(spawned@).contains(y) && y != x {
                            let q = choose|q: int| 0 <= q < split_sources(spawned@).len() && split_sources(spawned@)[q] == y;
                            assert(split_sources(pairs)[q] == y);
                        }
                        if split_sources(pairs).contains(y) {
                            let q = choose|q: int| 0 <= q < split_sources(pairs).len() && split_sources(pairs)[q] == y;
                            assert(split_sources(spawned@)[q] == y);
                        }
                        if y == x {
                            assert(split_sources(spawned@)[pairs.len() as int] == x);
                        }
                    } else {
                        assert(spawned@ == pairs);
                    }
                }
                assert forall|m: int| j + 1 <= m < list.len() implies #[trigger] Tag::stored(world).contains_key(list[m])
                    && Tag::stored(world)[list[m]] == Tag::stored(&w0)[list[m]]
                    && Transform::stored(world).contains_key(list[m]) == Transform::stored(&w0).contains_key(list[m])
                    && Transform::stored(world)[list[m]] == Transform::stored(&w0)[list[m]] by {
                    assert(list[m] != x);
                    assert(Tag::stored(&before).contains_key(list[m]));
                    assert(before.has(ComponentKind::Tag, list[m]));
                    if let Some(n) = made {
                        assert(n != list[m]);
                    }
                }
                assert forall|i: int| 0 <= i < spawned@.len() implies #[trigger] spawned_from(&w0, world, spawned@[i]) by {
                    if i < pairs.len() {
                        assert(spawned@[i] == pairs[i]);
                        assert(spawned_from(&w0, &before, pairs[i]));
                        let n0 = pairs[i].1;
                        assert(spawned_set(pairs).contains(n0)) by {
                            assert(pairs.map_values(|p: (EntityId, EntityId)| p.1)[i] == n0);
                        }
                        assert(before.issued().contains(n0));
                        assert(n0 != x) by {
                            Tag::lemma_stored(&w0);
                            assert(w0.has(ComponentKind::Tag, x));
                            assert(w0.is_live(x));
                        }
                        if let Some(n) = made {
                            assert(n != n0);
                        }
                        assert forall|k: ComponentKind| #[trigger] world.has(k, n0) == shape_kinds().contains(k) by {
                            assert(before.has(k, n0) == shape_kinds().contains(k));
                        }
                    } else {
                        let n = made.unwrap();
                        assert(spawned@[i] == (x, n));
                        assert(!w0.issued().contains(n));
                    }
                }
            }
            j = j + 1;
        }
        proof {
            assert(list.subrange(0, j as int) =~= list);
            assert(list.to_set() =~= damaged_shapes(&w0));
            assert forall|k: ComponentKind, y: EntityId| damaged_shape(&w0, y) implies !#[trigger] world.has(k, y) by {
                assert(w0.kind_rebuilt(world, k, damaged_shapes(&w0), spawned_set(spawned@)));
                assert(w0.has(ComponentKind::Tag, y)) by {
                    Tag::lemma_stored(&w0);
                }
                assert(w0.is_live(y));
                assert(!spawned_set(spawned@).contains(y)) by {
                    let ns = spawned@.map_values(|p: (EntityId, EntityId)| p.1);
                    if ns.contains(y) {
                        let q = choose|q: int| 0 <= q < ns.len() && ns[q] == y;
                        assert(spawned_from(&w0, world, spawned@[q]));
                    }
                }
                World::lemma_rebuilt_has(&w0, world, k, damaged_shapes(&w0), spawned_set(spawned@), y);
            }
        }
        spawned
    }
}

/// Appending an item adds it to the set of items.
pub proof fn lemma_push_to_set<A>(s: Seq<A>, x: A)
    ensures
        s.push(x).to_set() == s.to_set().insert(x),
{
    assert forall|y: A| s.push(x).to_set().contains(y) == s.to_set().insert(x).contains(y) by {
        if s.contains(y) {
            let q = choose|q: int| 0 <= q < s.len() && s[q] == y;
            assert(s.push(x)[q] == y);
        }
        if s.push(x).contains(y) && y != x {
            let q = choose|q: int| 0 <= q < s.len() + 1 && s.push(x)[q] == y;
            assert(s[q] == y);
        }
        if y == x {
            assert(s.push(x)[s.len() as int] == y);
        }
    }
    assert(s.push(x).to_set() =~= s.to_set().insert(x));
}

} // verus!
