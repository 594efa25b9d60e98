use crate::components::{elapsed, Expirable};
use crate::entity::EntityId;
use crate::world::{Component, ComponentKind, World};
use vstd::prelude::*;

verus! {

/// More than the lifetime of `x` has passed by `now`.
pub open spec fn expired_at(x: Expirable, now: u64) -> bool {
    elapsed(x.created, now) > x.expiration
}

/// Entity `e` of `w` has a lifetime that is over by `now`.
pub open spec fn expires(w: &World, e: EntityId, now: u64) -> bool {
    Expirable::stored(w).contains_key(e) && expired_at(Expirable::stored(w)[e], now)
}

/// The entities of `w` whose lifetime is over by `now`.
pub open spec fn expiring(w: &World, now: u64) -> Set<EntityId> {
    Set::new(|e: EntityId| expires(w, e, now))
}

/// An entity is still kept `eps` milliseconds before its lifetime
/// ends, and is due for removal `eps` milliseconds after.
pub proof fn lemma_expiration_boundary(x: Expirable, eps: u64)
    requires
        0 < eps <= x.expiration,
        x.created + x.expiration + eps <= u64::MAX,
    ensures
        !expired_at(x, (x.created + x.expiration - eps) as u64),
        expired_at(x, (x.created + x.expiration + eps) as u64),
{
}

/// Whether `entity` outlives `now`: it has no lifetime, or one not over yet.
pub fn should_keep(world: &World, entity: &EntityId, now: u64) -> (r: bool)
    requires
        world.wf(),
    ensures
        r == !expires(world, *entity, now),
{
    match world.get::<Expirable>(entity) {
        Some(e) => !e.is_expired(now),
        None => true,
    }
}

/// `after` is `before` without the entities whose lifetime is over by `now`.
pub open spec fn expiration_step(before: &World, after: &World, now: u64) -> bool {
    &&& forall|k: ComponentKind, e: EntityId|
        #[trigger] after.has(k, e) == (before.has(k, e) && !expires(before, e, now))
    &&& forall|k: ComponentKind| #[trigger] before.kind_removed_all(after, k, expiring(before, now))
    &&& after.issued() == before.issued()
}

/// Removes entities whose lifetime is over.
pub struct ExpirationSystem;

impl ExpirationSystem {
    /// Removes, with all their components, the entities whose lifetime is
    /// over by `now`; every other entity is left as it was.
    pub fn update(world: &mut World, now: u64)
        requires
            old(world).wf(),
        ensures
            final(world).wf(),
            expiration_step(old(world), final(world), now),
    {
        let candidates = world.entities::<Expirable>();
        let mut expired: Vec<EntityId> = Vec::new();
        let mut i: usize = 0;
        while i < candidates.len()
            invariant
                world.wf(),
                0 <= i <= candidates@.len(),
                candidates@ == world.order(ComponentKind::Expirable),
                forall|e: EntityId|
                    #[trigger] expired@.contains(e) == (candidates@.subrange(0, i as int).contains(e) && expires(world, e, now)),
            decreases candidates@.len() - i,
        {
            let e = candidates[i];
            let ghost pre = candidates@.subrange(0, i as int);
            let ghost post = candidates@.subrange(0, i + 1);
            let ghost before = expired@;
            proof {
                assert(post =~= pre.push(e));
                assert forall|y: EntityId| #[trigger] post.contains(y) == (pre.contains(y) || y == e) by {
                    if pre.contains(y) {
                        let j = choose|j: int| 0 <= j < pre.len() && pre[j] == y;
                        assert(post[j] == y);
                    }
                    if post.contains(y) && y != e {
                        let j = choose|j: int| 0 <= j < post.len() && post[j] == y;
                        assert(pre[j] == y);
                    }
                    if y == e {
                        assert(post[i as int] == y);
                    }
                }
            }
            if !should_keep(world, &e, now) {
                expired.push(e);
                proof {
                    assert forall|y: EntityId| #[trigger] expired@.contains(y) == (post.contains(y) && expires(world, y, now)) by {
                        assert(before.contains(y) == (pre.contains(y) && expires(world, y, now)));
                        if expired@.contains(y) && y != e {
                            let j = choose|j: int| 0 <= j < expired@.len() && expired@[j] == y;
                            assert(before[j] == y);
                        }
                        if y == e {
                            assert(expired@[expired@.len() - 1] == y);
                        }
                        if y != e && before.contains(y) {
                            let j = choose|j: int| 0 <= j < before.len() && before[j] == y;
                            assert(expired@[j] == y);
                        }
                    }
                }
            } else {
                proof {
                    assert forall|y: EntityId| #[trigger] expired@.contains(y) == (post.contains(y) && expires(world, y, now)) by {
                        assert(before.contains(y) == (pre.contains(y) && expires(world, y, now)));
                    }
                }
            }
            i = i + 1;
        }
        proof {
            assert(candidates@.subrange(0, i as int) =~= candidates@);
            world.lemma_order(ComponentKind::Expirable);
            Expirable::lemma_stored(world);
            assert forall|e: EntityId| #[trigger] expired@.contains(e) == expires(world, e, now) by {
                if expires(world, e, now) {
                    assert(world.has(ComponentKind::Expirable, e));
                }
            }
        }
        proof {
            assert(expired@.to_set() =~= expiring(world, now));
        }
        world.remove_all(expired);
    }
}

} // verus!
