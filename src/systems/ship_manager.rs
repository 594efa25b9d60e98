use crate::components::{DamageType, Physicsable, PlayerControllable, Tag, TagType, Transform, Vulnerable};
use crate::geometry::Point;
use crate::entity::{ship_kinds, spawn_transform, EntityId, Ship};
use crate::iter::{lemma_first_occurrences, unique};
use crate::systems::shape_manager::{born_of, is_signalled, signalled_entities};
use crate::world::{Component, ComponentKind, World};
use vstd::prelude::*;

verus! {

/// The damaged ships of `w`.
pub open spec fn damaged_ships(w: &World) -> Set<EntityId> {
    Set::new(|x: EntityId| damaged_ship(w, x))
}

/// `x` is the ship and some `Damaged` signal names it.
pub open spec fn damaged_ship(w: &World, x: EntityId) -> bool {
    is_signalled(w, x) && Tag::stored(w).contains_key(x) && Tag::stored(w)[x].tag_type == TagType::Ship
}

/// `after` is `before` with every damaged ship replaced by the one new
/// ship `r`, if any ship was damaged.
pub open spec fn ship_step(before: &World, after: &World, r: Option<EntityId>) -> bool {
    &&& r.is_some() == exists|x: EntityId| damaged_ship(before, x)
    &&& r.is_none() ==> *after == *before
    &&& before.rebuilt(after, damaged_ships(before), born_of(r))
    &&& after.issued() == before.issued().union(born_of(r))
    &&& forall|k: ComponentKind, x: EntityId| damaged_ship(before, x) ==> !#[trigger] after.has(k, x)
    &&& r matches Some(n) ==> {
        &&& !before.issued().contains(n)
        &&& forall|k: ComponentKind| #[trigger] after.has(k, n) == ship_kinds().contains(k)
        &&& Tag::stored(after)[n] == (Tag { tag_type: TagType::Ship })
        &&& Transform::stored(after)[n] == spawn_transform()
        &&& Physicsable::stored(after)[n] == (Physicsable {
            velocity: Point { x: 0, y: 0 },
            acceleration: Point { x: 0, y: 0 },
        })
        &&& PlayerControllable::stored(after)[n] == (PlayerControllable { last_fired: None })
        &&& Vulnerable::stored(after)[n].damage_types@ == seq![DamageType::Smash]
    }
}

/// Replaces a damaged ship.
pub struct ShipManager;

impl ShipManager {
    /// When some ship took damage this tick, removes every damaged ship and
    /// builds exactly one new ship at the spawn point, which is returned;
    /// every other entity is left as it was.
    pub fn update(world: &mut World) -> (r: Option<EntityId>)
        requires
            old(world).wf(),
        ensures
            final(world).wf(),
            ship_step(old(world), final(world), r),
    {
        let ghost w0 = *world;
        let signalled = signalled_entities(world);
        let ghost signalled_view = signalled@;
        let named = unique(signalled);
        proof {
            lemma_first_occurrences(signalled_view);
        }
        let mut ships: Vec<EntityId> = Vec::new();
        let mut i: usize = 0;
        while i < named.len()
            invariant
                world.wf(),
                *world == w0,
                0 <= i <= named@.len(),
                forall|x: EntityId| #[trigger] named@.contains(x) <==> is_signalled(&w0, x),
                forall|x: EntityId|
                    #[trigger] ships@.contains(x) <==> (named@.subrange(0, i as int).contains(x) && damaged_ship(&w0, x)),
            decreases named@.len() - i,
        {
            let x = named[i];
            let is_ship = match world.get::<Tag>(&x) {
                Some(t) => match t.tag_type {
                    TagType::Ship => true,
                    _ => false,
                },
                None => false,
            };
            let ghost pre = named@.subrange(0, i as int);
            let ghost post = named@.subrange(0, i + 1);
            let ghost before = ships@;
            proof {
                assert(named@.contains(named@[i as int]));
                assert(is_ship == damaged_ship(&w0, x));
                assert(post =~= pre.push(x));
                assert forall|y: EntityId| #[trigger] post.contains(y) == (pre.contains(y) || y == x) by {
                    if pre.contains(y) {
                        let j = choose|j: int| 0 <= j < pre.len() && pre[j] == y;
                        assert(post[j] == y);
                    }
                    if post.contains(y) && y != x {
                        let j = choose|j: int| 0 <= j < post.len() && post[j] == y;
                        assert(pre[j] == y);
                    }
                    if y == x {
                        assert(post[i as int] == y);
                    }
                }
            }
            if is_ship {
                ships.push(x);
                proof {
                    assert forall|y: EntityId| #[trigger] ships@.contains(y) == (post.contains(y) && damaged_ship(&w0, y)) by {
                        assert(before.contains(y) == (pre.contains(y) && damaged_ship(&w0, y)));
                        if ships@.contains(y) && y != x {
                            let j = choose|j: int| 0 <= j < ships@.len() && ships@[j] == y;
                            assert(before[j] == y);
                        }
                        if y == x {
                            assert(ships@[ships@.len() - 1] == y);
                        }
                        if y != x && before.contains(y) {
                            let j = choose|j: int| 0 <= j < before.len() && before[j] == y;
                            assert(ships@[j] == y);
                        }
                    }
                }
            } else {
                proof {
                    assert forall|y: EntityId| #[trigger] ships@.contains(y) == (post.contains(y) && damaged_ship(&w0, y)) by {
                        assert(before.contains(y) == (pre.contains(y) && damaged_ship(&w0, y)));
                    }
                }
            }
            i = i + 1;
        }
        proof {
            assert(named@.subrange(0, i as int) =~= named@);
        }
        let ghost doomed = ships@;
        if ships.len() == 0 {
            proof {
                assert forall|x: EntityId| !damaged_ship(&w0, x) by {
                    if damaged_ship(&w0, x) {
                        assert(named@.contains(x));
                        assert(ships@.contains(x));
                    }
                }
                assert forall|k: ComponentKind| #[trigger] w0.kind_rebuilt(world, k, damaged_ships(&w0), born_of(None)) by {
                    w0.lemma_kind_unchanged_refl();
                    World::lemma_rebuilt_unchanged(&w0, world, k);
                    assert(damaged_ships(&w0) =~= Set::<EntityId>::empty());
                }
                assert(w0.issued().union(born_of(None)) =~= w0.issued());
            }
            return None;
        }
        let n = Ship::create(world);
        let ghost w1 = *world;
        proof {
            World::lemma_extended_has(&w0, &w1, n, ship_kinds());
            assert(ships@.contains(ships@[0]));
            assert(damaged_ship(&w0, ships@[0]));
            assert(doomed.to_set() =~= damaged_ships(&w0)) by {
                assert forall|x: EntityId| doomed.to_set().contains(x) == damaged_ships(&w0).contains(x) by {
                    assert(named@.contains(x) <==> is_signalled(&w0, x));
                }
            }
            assert(!doomed.contains(n)) by {
                if doomed.contains(n) {
                    assert(damaged_ship(&w0, n));
                    assert(w0.has(ComponentKind::Tag, n)) by {
                        Tag::lemma_stored(&w0);
                    }
                }
            }
        }
        world.remove_all(ships);
        proof {
            assert forall|k: ComponentKind| #[trigger] w0.kind_rebuilt(world, k, damaged_ships(&w0), born_of(Some(n))) by {
                World::lemma_rebuilt_extended(&w0, &w1, n, ship_kinds(), k);
                World::lemma_rebuilt_removed_all(&w1, world, doomed.to_set(), k);
                World::lemma_rebuilt_trans(&w0, &w1, world, k, Set::empty(), set![n], doomed.to_set(), Set::empty());
                assert(Set::<EntityId>::empty().union(doomed.to_set()) =~= damaged_ships(&w0));
                assert(set![n].union(Set::empty()) =~= born_of(Some(n)));
            }
            assert(world.issued() =~= w0.issued().union(born_of(Some(n))));
            assert forall|k: ComponentKind| #[trigger] world.has(k, n) == ship_kinds().contains(k) by {
                assert(w1.has(k, n) == ship_kinds().contains(k));
            }
            Tag::lemma_removed_all(&w1, world, doomed.to_set());
            Transform::lemma_removed_all(&w1, world, doomed.to_set());
            Physicsable::lemma_removed_all(&w1, world, doomed.to_set());
            PlayerControllable::lemma_removed_all(&w1, world, doomed.to_set());
            Vulnerable::lemma_removed_all(&w1, world, doomed.to_set());
            Tag::lemma_stored(&w1);
            Transform::lemma_stored(&w1);
            Physicsable::lemma_stored(&w1);
            PlayerControllable::lemma_stored(&w1);
            Vulnerable::lemma_stored(&w1);
            assert(w1.has(ComponentKind::Tag, n));
            assert(w1.has(ComponentKind::Transform, n));
            assert(w1.has(ComponentKind::Physicsable, n));
            assert(w1.has(ComponentKind::PlayerControllable, n));
            assert(w1.has(ComponentKind::Vulnerable, n));
            assert forall|k: ComponentKind, x: EntityId| damaged_ship(&w0, x) implies !#[trigger] world.has(k, x) by {
                assert(damaged_ships(&w0).contains(x));
                assert(x != n) by {
                    if x == n {
                        assert(w0.has(ComponentKind::Tag, n)) by {
                            Tag::lemma_stored(&w0);
                        }
                    }
                }
                World::lemma_rebuilt_has(&w0, world, k, damaged_ships(&w0), born_of(Some(n)), x);
            }
        }
        Some(n)
    }
}

} // verus!
