use crate::components::{Collision, Damage, Damaged, Vulnerable};
use crate::entity::EntityId;
use crate::world::{Component, ComponentKind, World};
use vstd::prelude::*;

verus! {

/// `victim` is vulnerable to the kind of damage that `source` deals.
pub open spec fn damaged_by(w: &World, victim: EntityId, source: EntityId) -> bool {
    &&& Damage::stored(w).contains_key(source)
    &&& Vulnerable::stored(w).contains_key(victim)
    &&& Vulnerable::stored(w)[victim].damage_types@.contains(Damage::stored(w)[source].damage_type)
}

/// The entities harmed by the collisions `cs`, in order: for each collision,
/// its first entity if the second harms it, then its second entity if the
/// first harms it.
pub open spec fn damage_targets(w: &World, cs: Seq<Collision>) -> Seq<EntityId>
    decreases cs.len(),
{
    if cs.len() == 0 {
        Seq::empty()
    } else {
        let c = cs.last();
        let prev = damage_targets(w, cs.drop_last());
        let first = if damaged_by(w, c.entity1, c.entity2) {
            prev.push(c.entity1)
        } else {
            prev
        };
        if damaged_by(w, c.entity2, c.entity1) {
            first.push(c.entity2)
        } else {
            first
        }
    }
}

/// The stored collisions of `w`, in order of insertion.
pub open spec fn collisions_of(w: &World) -> Seq<Collision> {
    w.order(ComponentKind::Collision).map_values(|e: EntityId| Collision::stored(w)[e])
}

/// `after` is `before` with one new `Damaged` entity for each of `targets`,
/// in that order, each under an identity no entity of `before` holds;
/// nothing else changed.
pub open spec fn signalled(before: &World, after: &World, targets: Seq<EntityId>) -> bool {
    let base = before.order(ComponentKind::Damaged);
    let now = after.order(ComponentKind::Damaged);
    &&& before.unchanged_except(after, ComponentKind::Damaged)
    &&& before.issued().subset_of(after.issued())
    &&& now.len() == base.len() + targets.len()
    &&& now.subrange(0, base.len() as int) == base
    &&& forall|i: int|
        0 <= i < targets.len() ==> !before.issued().contains(#[trigger] now[base.len() + i])
            && Damaged::stored(after)[now[base.len() + i]] == (Damaged { entity: targets[i] })
    &&& forall|e: EntityId|
        #[trigger] Damaged::stored(before).contains_key(e) ==> Damaged::stored(after).contains_key(e)
            && Damaged::stored(after)[e] == Damaged::stored(before)[e]
}

/// Whether `entity1` is vulnerable to the damage that `entity2` deals.
pub fn is_damaged_by(world: &World, entity1: &EntityId, entity2: &EntityId) -> (r: bool)
    requires
        world.wf(),
    ensures
        r == damaged_by(world, *entity1, *entity2),
{
    let damage = world.get::<Damage>(entity2);
    let vulnerability = world.get::<Vulnerable>(entity1);
    match (damage, vulnerability) {
        (Some(d), Some(v)) => {
            let types = &v.damage_types;
            let mut i: usize = 0;
            while i < types.len()
                invariant
                    0 <= i <= types@.len(),
                    Damage::stored(world).contains_key(*entity2),
                    Vulnerable::stored(world).contains_key(*entity1),
                    *d == Damage::stored(world)[*entity2],
                    types@ == Vulnerable::stored(world)[*entity1].damage_types@,
                    forall|j: int| 0 <= j < i ==> types@[j] != d.damage_type,
                decreases types@.len() - i,
            {
                if types[i] == d.damage_type {
                    assert(types@.contains(types@[i as int]));
                    return true;
                }
                i = i + 1;
            }
            false
        },
        _ => false,
    }
}

/// Creates one `Damaged` entity for each of `targets`, in order.
fn emit_damaged(world: &mut World, targets: &Vec<EntityId>)
    requires
        old(world).wf(),
    ensures
        final(world).wf(),
        signalled(old(world), final(world), targets@),
{
    let ghost w0 = *world;
    let ghost base = w0.order(ComponentKind::Damaged);
    let ghost mut ids: Seq<EntityId> = Seq::empty();
    proof {
        w0.lemma_unchanged_refl(ComponentKind::Damaged);
        assert(base + ids =~= base);
    }
    let mut i: usize = 0;
    while i < targets.len()
        invariant
            world.wf(),
            0 <= i <= targets@.len(),
            w0.unchanged_except(world, ComponentKind::Damaged),
            w0.issued().subset_of(world.issued()),
            forall|k: ComponentKind, e: EntityId| w0.has(k, e) ==> #[trigger] world.has(k, e),
            world.order(ComponentKind::Damaged) == base + ids,
            ids.len() == i,
            forall|j: int|
                0 <= j < ids.len() ==> !w0.issued().contains(#[trigger] ids[j]) && Damaged::stored(world)[ids[j]]
                    == (Damaged { entity: targets@[j] }),
            forall|e: EntityId|
                #[trigger] Damaged::stored(&w0).contains_key(e) ==> Damaged::stored(world).contains_key(e)
                    && Damaged::stored(world)[e] == Damaged::stored(&w0)[e],
        decreases targets@.len() - i,
    {
        let ghost before0 = *world;
        let e = world.create_entity();
        let ghost before = *world;
        proof {
            let k = ComponentKind::Damaged;
            assert forall|k2: ComponentKind| k2 != k implies #[trigger] before0.kind_unchanged(&before, k2) by {
                assert(before0.kind_unchanged(&before, k2));
            }
            assert(before0.kind_unchanged(&before, k));
            before0.lemma_unchanged(&before, k);
            assert(!before0.has(k, e));
            Damaged::lemma_framed(&before0, &before);
            World::lemma_unchanged_trans(&w0, &before0, &before, k);
            assert forall|k2: ComponentKind, x: EntityId| w0.has(k2, x) implies #[trigger] before.has(k2, x) by {
                assert(before0.has(k2, x));
                assert(before0.kind_unchanged(&before, k2));
                before0.lemma_unchanged(&before, k2);
            }
        }
        world.add(&e, Damaged::new(targets[i]));
        proof {
            let k = ComponentKind::Damaged;
            Damaged::lemma_stored(&before);
            before.lemma_order(k);
            world.lemma_order(k);
            assert(!before.has(k, e));
            World::lemma_unchanged_trans(&w0, &before, world, k);
            assert forall|k2: ComponentKind, x: EntityId| w0.has(k2, x) implies #[trigger] world.has(k2, x) by {
                assert(before.has(k2, x));
                if k2 != k {
                    assert(before.kind_unchanged(world, k2));
                    before.lemma_unchanged(world, k2);
                } else {
                    assert(before.order(k).contains(x));
                    let idx = choose|idx: int| 0 <= idx < before.order(k).len() && before.order(k)[idx] == x;
                    assert(world.order(k)[idx] == x);
                    assert(world.order(k).contains(x));
                }
            }
            assert forall|x: int| 0 <= x < ids.len() implies ids[x] != e by {
                assert(before.order(k)[base.len() + x] == ids[x]);
                assert(before.order(k).contains(ids[x]));
            }
            assert forall|x: EntityId| #[trigger] Damaged::stored(&w0).contains_key(x) implies x != e by {
                Damaged::lemma_stored(&w0);
                assert(w0.has(k, x));
            }
            assert(!w0.issued().contains(e));
            assert forall|x: int| 0 <= x < ids.len() implies ids[x] != e by {
                assert(before0.order(k)[base.len() + x] == ids[x]);
                before0.lemma_order(k);
                assert(before0.order(k).contains(ids[x]));
                assert(before0.has(k, ids[x]));
            }
            let old_ids = ids;
            ids = ids.push(e);
            assert(world.order(k) =~= base + ids);
            assert forall|x: int| 0 <= x < ids.len() implies !w0.issued().contains(#[trigger] ids[x]) && Damaged::stored(world)[ids[x]]
                == (Damaged { entity: targets@[x] }) by {
                if x < old_ids.len() {
                    assert(ids[x] == old_ids[x]);
                }
            }
        }
        i = i + 1;
    }
    proof {
        let now = world.order(ComponentKind::Damaged);
        assert(now.subrange(0, base.len() as int) =~= base);
        assert forall|i: int| 0 <= i < targets@.len() implies !w0.issued().contains(#[trigger] now[base.len() + i])
            && Damaged::stored(world)[now[base.len() + i]] == (Damaged { entity: targets@[i] }) by {
            assert(now[base.len() + i] == ids[i]);
        }
    }
}

/// `after` is `before` once last tick's damage signals are gone and this
/// tick's are recorded.
pub open spec fn damage_step(before: &World, after: &World) -> bool {
    &&& exists|cleared: World|
        {
            &&& cleared.wf()
            &&& cleared.issued() == before.issued()
            &&& forall|k: ComponentKind| #[trigger] before.kind_removed_all(&cleared, k, before.dom(ComponentKind::Damaged))
            &&& forall|e: EntityId| !#[trigger] cleared.has(ComponentKind::Damaged, e)
            &&& signalled(&cleared, after, damage_targets(&cleared, collisions_of(&cleared)))
        }
}

/// Turns this tick's collisions into damage signals.
pub struct DamageSystem;

impl DamageSystem {
    /// Deletes last tick's `Damaged` entities, then, for each stored
    /// collision in order, signals its first entity if the second harms it
    /// and its second entity if the first harms it.
    pub fn update(world: &mut World)
        requires
            old(world).wf(),
        ensures
            final(world).wf(),
            damage_step(old(world), final(world)),
    {
        world.clear::<Damaged>();
        let ghost cleared = *world;
        let collisions = world.components::<Collision>();
        let ghost cs = collisions_of(world);
        let mut targets: Vec<EntityId> = Vec::new();
        let mut i: usize = 0;
        while i < collisions.len()
            invariant
                world.wf(),
                *world == cleared,
                0 <= i <= collisions@.len(),
                collisions@.len() == cs.len(),
                forall|j: int| 0 <= j < cs.len() ==> *#[trigger] collisions@[j] == cs[j],
                targets@ == damage_targets(world, cs.subrange(0, i as int)),
            decreases collisions@.len() - i,
        {
            let e1 = collisions[i].entity1;
            let e2 = collisions[i].entity2;
            assert(cs.subrange(0, i + 1).drop_last() =~= cs.subrange(0, i as int));
            if is_damaged_by(world, &e1, &e2) {
                targets.push(e1);
            }
            if is_damaged_by(world, &e2, &e1) {
                targets.push(e2);
            }
            i = i + 1;
        }
        assert(cs.subrange(0, i as int) =~= cs);
        emit_damaged(world, &targets);
    }
}

} // verus!
