use crate::components::{
    Collidable, Collision, ComponentManager, Damage, Damaged, Drawable, Expirable, Physicsable,
    PlayerControllable, Tag, Transform, Vulnerable,
};
use crate::entity::{random_entity_id, EntityId};
use crate::vec::intersections;
use std::collections::HashSet;
use vstd::prelude::*;
use vstd::set_lib::{lemma_int_range, lemma_len_subset, set_int_range};

verus! {

broadcast use vstd::laws_eq::group_laws_eq, vstd::std_specs::hash::group_hash_axioms;

/// The kinds of component that a `World` stores.
#[derive(Clone, Copy, Debug, PartialEq, Eq, Structural)]
pub enum ComponentKind {
    Collidable,
    Collision,
    Damage,
    Damaged,
    Drawable,
    Expirable,
    Physicsable,
    PlayerControllable,
    Tag,
    Transform,
    Vulnerable,
}

/// One store per component kind, keyed by entity, and every identity the
/// world has handed out or been given.
pub struct World {
    issued: HashSet<EntityId>,
    collidables: ComponentManager<Collidable>,
    collisions: ComponentManager<Collision>,
    damages: ComponentManager<Damage>,
    damageds: ComponentManager<Damaged>,
    drawables: ComponentManager<Drawable>,
    expirables: ComponentManager<Expirable>,
    physics: ComponentManager<Physicsable>,
    player_controllables: ComponentManager<PlayerControllable>,
    tags: ComponentManager<Tag>,
    transforms: ComponentManager<Transform>,
    vulnerables: ComponentManager<Vulnerable>,
}

/// A component kind: the `World` field that holds it, and the operations on
/// that field.
pub trait Component: Sized {
    spec fn kind() -> ComponentKind;

    /// The components of this kind in `w`, by entity.
    spec fn stored(w: &World) -> Map<EntityId, Self>;

    proof fn lemma_stored(w: &World)
        ensures
            Self::stored(w).dom() == w.dom(Self::kind()),
    ;

    proof fn lemma_framed(a: &World, b: &World)
        requires
            a.kind_unchanged(b, Self::kind()),
        ensures
            Self::stored(a) == Self::stored(b),
    ;

    proof fn lemma_removed(a: &World, b: &World, e: EntityId)
        requires
            a.kind_removed(b, Self::kind(), e),
        ensures
            Self::stored(b) == Self::stored(a).remove(e),
    ;

    proof fn lemma_removed_all(a: &World, b: &World, es: Set<EntityId>)
        requires
            a.kind_removed_all(b, Self::kind(), es),
        ensures
            Self::stored(b) == Self::stored(a).remove_keys(es),
    ;

    proof fn lemma_rebuilt_stored(a: &World, b: &World, gone: Set<EntityId>, born: Set<EntityId>)
        requires
            a.kind_rebuilt(b, Self::kind(), gone, born),
        ensures
            Self::stored(b).remove_keys(born) == Self::stored(a).remove_keys(gone),
    ;

    proof fn lemma_rebuilt_from_stored(a: &World, b: &World, gone: Set<EntityId>, born: Set<EntityId>)
        requires
            Self::stored(b).remove_keys(born) == Self::stored(a).remove_keys(gone),
        ensures
            a.kind_rebuilt(b, Self::kind(), gone, born),
    ;

    proof fn lemma_inserted(a: &World, b: &World, e: EntityId, c: Self)
        requires
            Self::stored(b) == Self::stored(a).insert(e, c),
        ensures
            a.kind_extended(b, Self::kind(), e),
    ;

    proof fn lemma_extended_stored(a: &World, b: &World, e: EntityId, kinds: Set<ComponentKind>)
        requires
            a.extended(b, e, kinds),
        ensures
            Self::stored(b).remove(e) == Self::stored(a).remove(e),
            kinds.contains(Self::kind()) ==> Self::stored(b).contains_key(e),
            !kinds.contains(Self::kind()) ==> Self::stored(b) == Self::stored(a),
    ;

    fn manager(w: &World) -> (r: &ComponentManager<Self>)
        ensures
            r@ == Self::stored(w),
            w.wf() ==> r.wf(),
            r.order() == w.order(Self::kind()),
    ;

    fn manager_mut(w: &mut World) -> (r: &mut ComponentManager<Self>)
        ensures
            r@ == Self::stored(old(w)),
            r.order() == old(w).order(Self::kind()),
            old(w).wf() ==> r.wf(),
            Self::stored(final(w)) == final(r)@,
            final(w).order(Self::kind()) == final(r).order(),
            old(w).unchanged_except(final(w), Self::kind()),
            final(w).issued() == old(w).issued(),
            old(w).wf() && final(r).wf() && final(r)@.dom() == r@.dom() ==> final(w).wf(),
    ;

    fn insert(w: &mut World, entity: &EntityId, component: Self)
        requires
            old(w).wf(),
            old(w).issued().contains(*entity),
        ensures
            final(w).wf(),
            final(w).issued() == old(w).issued(),
            Self::stored(final(w)) == Self::stored(old(w)).insert(*entity, component),
            old(w).unchanged_except(final(w), Self::kind()),
            final(w).order(Self::kind()) == if old(w).has(Self::kind(), *entity) {
                old(w).order(Self::kind())
            } else {
                old(w).order(Self::kind()).push(*entity)
            },
    ;

    fn delete(w: &mut World, entity: &EntityId)
        requires
            old(w).wf(),
        ensures
            final(w).wf(),
            final(w).issued() == old(w).issued(),
            Self::stored(final(w)) == Self::stored(old(w)).remove(*entity),
            old(w).unchanged_except(final(w), Self::kind()),
    ;
}

impl Component for Collidable {
    open spec fn kind() -> ComponentKind {
        ComponentKind::Collidable
    }

    closed spec fn stored(w: &World) -> Map<EntityId, Collidable> {
        w.collidables@
    }

    proof fn lemma_stored(w: &World) {
    }

    proof fn lemma_framed(a: &World, b: &World) {
    }

    proof fn lemma_removed(a: &World, b: &World, e: EntityId) {
    }

    proof fn lemma_removed_all(a: &World, b: &World, es: Set<EntityId>) {
    }

    proof fn lemma_rebuilt_stored(a: &World, b: &World, gone: Set<EntityId>, born: Set<EntityId>) {
    }

    proof fn lemma_rebuilt_from_stored(a: &World, b: &World, gone: Set<EntityId>, born: Set<EntityId>) {
    }

    proof fn lemma_inserted(a: &World, b: &World, e: EntityId, c: Collidable) {
        assert(b.collidables@ =~= a.collidables@.insert(e, b.collidables@[e]));
    }

    proof fn lemma_extended_stored(a: &World, b: &World, e: EntityId, kinds: Set<ComponentKind>) {
        if kinds.contains(ComponentKind::Collidable) {
            assert(a.kind_extended(b, ComponentKind::Collidable, e));
            assert(b.collidables@.remove(e) =~= a.collidables@.remove(e));
        } else {
            assert(a.kind_unchanged(b, ComponentKind::Collidable));
        }
    }

    fn manager(w: &World) -> &ComponentManager<Collidable> {
        &w.collidables
    }

    fn manager_mut(w: &mut World) -> &mut ComponentManager<Collidable> {
        &mut w.collidables
    }

    fn insert(w: &mut World, entity: &EntityId, component: Collidable) {
        w.collidables.add(entity, component);
    }

    fn delete(w: &mut World, entity: &EntityId) {
        w.collidables.remove(entity);
    }
}

impl Component for Collision {
    open spec fn kind() -> ComponentKind {
        ComponentKind::Collision
    }

    closed spec fn stored(w: &World) -> Map<EntityId, Collision> {
        w.collisions@
    }

    proof fn lemma_stored(w: &World) {
    }

    proof fn lemma_framed(a: &World, b: &World) {
    }

    proof fn lemma_removed(a: &World, b: &World, e: EntityId) {
    }

    proof fn lemma_removed_all(a: &World, b: &World, es: Set<EntityId>) {
    }

    proof fn lemma_rebuilt_stored(a: &World, b: &World, gone: Set<EntityId>, born: Set<EntityId>) {
    }

    proof fn lemma_rebuilt_from_stored(a: &World, b: &World, gone: Set<EntityId>, born: Set<EntityId>) {
    }

    proof fn lemma_inserted(a: &World, b: &World, e: EntityId, c: Collision) {
        assert(b.collisions@ =~= a.collisions@.insert(e, b.collisions@[e]));
    }

    proof fn lemma_extended_stored(a: &World, b: &World, e: EntityId, kinds: Set<ComponentKind>) {
        if kinds.contains(ComponentKind::Collision) {
            assert(a.kind_extended(b, ComponentKind::Collision, e));
            assert(b.collisions@.remove(e) =~= a.collisions@.remove(e));
        } else {
            assert(a.kind_unchanged(b, ComponentKind::Collision));
        }
    }

    fn manager(w: &World) -> &ComponentManager<Collision> {
        &w.collisions
    }

    fn manager_mut(w: &mut World) -> &mut ComponentManager<Collision> {
        &mut w.collisions
    }

    fn insert(w: &mut World, entity: &EntityId, component: Collision) {
        w.collisions.add(entity, component);
    }

    fn delete(w: &mut World, entity: &EntityId) {
        w.collisions.remove(entity);
    }
}

impl Component for Damage {
    open spec fn kind() -> ComponentKind {
        ComponentKind::Damage
    }

    closed spec fn stored(w: &World) -> Map<EntityId, Damage> {
        w.damages@
    }

    proof fn lemma_stored(w: &World) {
    }

    proof fn lemma_framed(a: &World, b: &World) {
    }

    proof fn lemma_removed(a: &World, b: &World, e: EntityId) {
    }

    proof fn lemma_removed_all(a: &World, b: &World, es: Set<EntityId>) {
    }

    proof fn lemma_rebuilt_stored(a: &World, b: &World, gone: Set<EntityId>, born: Set<EntityId>) {
    }

    proof fn lemma_rebuilt_from_stored(a: &World, b: &World, gone: Set<EntityId>, born: Set<EntityId>) {
    }

    proof fn lemma_inserted(a: &World, b: &World, e: EntityId, c: Damage) {
        assert(b.damages@ =~= a.damages@.insert(e, b.damages@[e]));
    }

    proof fn lemma_extended_stored(a: &World, b: &World, e: EntityId, kinds: Set<ComponentKind>) {
        if kinds.contains(ComponentKind::Damage) {
            assert(a.kind_extended(b, ComponentKind::Damage, e));
            assert(b.damages@.remove(e) =~= a.damages@.remove(e));
        } else {
            assert(a.kind_unchanged(b, ComponentKind::Damage));
        }
    }

    fn manager(w: &World) -> &ComponentManager<Damage> {
        &w.damages
    }

    fn manager_mut(w: &mut World) -> &mut ComponentManager<Damage> {
        &mut w.damages
    }

    fn insert(w: &mut World, entity: &EntityId, component: Damage) {
        w.damages.add(entity, component);
    }

    fn delete(w: &mut World, entity: &EntityId) {
        w.damages.remove(entity);
    }
}

impl Component for Damaged {
    open spec fn kind() -> ComponentKind {
        ComponentKind::Damaged
    }

    closed spec fn stored(w: &World) -> Map<EntityId, Damaged> {
        w.damageds@
    }

    proof fn lemma_stored(w: &World) {
    }

    proof fn lemma_framed(a: &World, b: &World) {
    }

    proof fn lemma_removed(a: &World, b: &World, e: EntityId) {
    }

    proof fn lemma_removed_all(a: &World, b: &World, es: Set<EntityId>) {
    }

    proof fn lemma_rebuilt_stored(a: &World, b: &World, gone: Set<EntityId>, born: Set<EntityId>) {
    }

    proof fn lemma_rebuilt_from_stored(a: &World, b: &World, gone: Set<EntityId>, born: Set<EntityId>) {
    }

    proof fn lemma_inserted(a: &World, b: &World, e: EntityId, c: Damaged) {
        assert(b.damageds@ =~= a.damageds@.insert(e, b.damageds@[e]));
    }

    proof fn lemma_extended_stored(a: &World, b: &World, e: EntityId, kinds: Set<ComponentKind>) {
        if kinds.contains(ComponentKind::Damaged) {
            assert(a.kind_extended(b, ComponentKind::Damaged, e));
            assert(b.damageds@.remove(e) =~= a.damageds@.remove(e));
        } else {
            assert(a.kind_unchanged(b, ComponentKind::Damaged));
        }
    }

    fn manager(w: &World) -> &ComponentManager<Damaged> {
        &w.damageds
    }

    fn manager_mut(w: &mut World) -> &mut ComponentManager<Damaged> {
        &mut w.damageds
    }

    fn insert(w: &mut World, entity: &EntityId, component: Damaged) {
        w.damageds.add(entity, component);
    }

    fn delete(w: &mut World, entity: &EntityId) {
        w.damageds.remove(entity);
    }
}

impl Component for Drawable {
    open spec fn kind() -> ComponentKind {
        ComponentKind::Drawable
    }

    closed spec fn stored(w: &World) -> Map<EntityId, Drawable> {
        w.drawables@
    }

    proof fn lemma_stored(w: &World) {
    }

    proof fn lemma_framed(a: &World, b: &World) {
    }

    proof fn lemma_removed(a: &World, b: &World, e: EntityId) {
    }

    proof fn lemma_removed_all(a: &World, b: &World, es: Set<EntityId>) {
    }

    proof fn lemma_rebuilt_stored(a: &World, b: &World, gone: Set<EntityId>, born: Set<EntityId>) {
    }

    proof fn lemma_rebuilt_from_stored(a: &World, b: &World, gone: Set<EntityId>, born: Set<EntityId>) {
    }

    proof fn lemma_inserted(a: &World, b: &World, e: EntityId, c: Drawable) {
        assert(b.drawables@ =~= a.drawables@.insert(e, b.drawables@[e]));
    }

    proof fn lemma_extended_stored(a: &World, b: &World, e: EntityId, kinds: Set<ComponentKind>) {
        if kinds.contains(ComponentKind::Drawable) {
            assert(a.kind_extended(b, ComponentKind::Drawable, e));
            assert(b.drawables@.remove(e) =~= a.drawables@.remove(e));
        } else {
            assert(a.kind_unchanged(b, ComponentKind::Drawable));
        }
    }

    fn manager(w: &World) -> &ComponentManager<Drawable> {
        &w.drawables
    }

    fn manager_mut(w: &mut World) -> &mut ComponentManager<Drawable> {
        &mut w.drawables
    }

    fn insert(w: &mut World, entity: &EntityId, component: Drawable) {
        w.drawables.add(entity, component);
    }

    fn delete(w: &mut World, entity: &EntityId) {
        w.drawables.remove(entity);
    }
}

impl Component for Expirable {
    open spec fn kind() -> ComponentKind {
        ComponentKind::Expirable
    }

    closed spec fn stored(w: &World) -> Map<EntityId, Expirable> {
        w.expirables@
    }

    proof fn lemma_stored(w: &World) {
    }

    proof fn lemma_framed(a: &World, b: &World) {
    }

    proof fn lemma_removed(a: &World, b: &World, e: EntityId) {
    }

    proof fn lemma_removed_all(a: &World, b: &World, es: Set<EntityId>) {
    }

    proof fn lemma_rebuilt_stored(a: &World, b: &World, gone: Set<EntityId>, born: Set<EntityId>) {
    }

    proof fn lemma_rebuilt_from_stored(a: &World, b: &World, gone: Set<EntityId>, born: Set<EntityId>) {
    }

    proof fn lemma_inserted(a: &World, b: &World, e: EntityId, c: Expirable) {
        assert(b.expirables@ =~= a.expirables@.insert(e, b.expirables@[e]));
    }

    proof fn lemma_extended_stored(a: &World, b: &World, e: EntityId, kinds: Set<ComponentKind>) {
        if kinds.contains(ComponentKind::Expirable) {
            assert(a.kind_extended(b, ComponentKind::Expirable, e));
            assert(b.expirables@.remove(e) =~= a.expirables@.remove(e));
        } else {
            assert(a.kind_unchanged(b, ComponentKind::Expirable));
        }
    }

    fn manager(w: &World) -> &ComponentManager<Expirable> {
        &w.expirables
    }

    fn manager_mut(w: &mut World) -> &mut ComponentManager<Expirable> {
        &mut w.expirables
    }

    fn insert(w: &mut World, entity: &EntityId, component: Expirable) {
        w.expirables.add(entity, component);
    }

    fn delete(w: &mut World, entity: &EntityId) {
        w.expirables.remove(entity);
    }
}

impl Component for Physicsable {
    open spec fn kind() -> ComponentKind {
        ComponentKind::Physicsable
    }

    closed spec fn stored(w: &World) -> Map<EntityId, Physicsable> {
        w.physics@
    }

    proof fn lemma_stored(w: &World) {
    }

    proof fn lemma_framed(a: &World, b: &World) {
    }

    proof fn lemma_removed(a: &World, b: &World, e: EntityId) {
    }

    proof fn lemma_removed_all(a: &World, b: &World, es: Set<EntityId>) {
    }

    proof fn lemma_rebuilt_stored(a: &World, b: &World, gone: Set<EntityId>, born: Set<EntityId>) {
    }

    proof fn lemma_rebuilt_from_stored(a: &World, b: &World, gone: Set<EntityId>, born: Set<EntityId>) {
    }

    proof fn lemma_inserted(a: &World, b: &World, e: EntityId, c: Physicsable) {
        assert(b.physics@ =~= a.physics@.insert(e, b.physics@[e]));
    }

    proof fn lemma_extended_stored(a: &World, b: &World, e: EntityId, kinds: Set<ComponentKind>) {
        if kinds.contains(ComponentKind::Physicsable) {
            assert(a.kind_extended(b, ComponentKind::Physicsable, e));
            assert(b.physics@.remove(e) =~= a.physics@.remove(e));
        } else {
            assert(a.kind_unchanged(b, ComponentKind::Physicsable));
        }
    }

    fn manager(w: &World) -> &ComponentManager<Physicsable> {
        &w.physics
    }

    fn manager_mut(w: &mut World) -> &mut ComponentManager<Physicsable> {
        &mut w.physics
    }

    fn insert(w: &mut World, entity: &EntityId, component: Physicsable) {
        w.physics.add(entity, component);
    }

    fn delete(w: &mut World, entity: &EntityId) {
        w.physics.remove(entity);
    }
}

impl Component for PlayerControllable {
    open spec fn kind() -> ComponentKind {
        ComponentKind::PlayerControllable
    }

    closed spec fn stored(w: &World) -> Map<EntityId, PlayerControllable> {
        w.player_controllables@
    }

    proof fn lemma_stored(w: &World) {
    }

    proof fn lemma_framed(a: &World, b: &World) {
    }

    proof fn lemma_removed(a: &World, b: &World, e: EntityId) {
    }

    proof fn lemma_removed_all(a: &World, b: &World, es: Set<EntityId>) {
    }

    proof fn lemma_rebuilt_stored(a: &World, b: &World, gone: Set<EntityId>, born: Set<EntityId>) {
    }

    proof fn lemma_rebuilt_from_stored(a: &World, b: &World, gone: Set<EntityId>, born: Set<EntityId>) {
    }

    proof fn lemma_inserted(a: &World, b: &World, e: EntityId, c: PlayerControllable) {
        assert(b.player_controllables@ =~= a.player_controllables@.insert(e, b.player_controllables@[e]));
    }

    proof fn lemma_extended_stored(a: &World, b: &World, e: EntityId, kinds: Set<ComponentKind>) {
        if kinds.contains(ComponentKind::PlayerControllable) {
            assert(a.kind_extended(b, ComponentKind::PlayerControllable, e));
            assert(b.player_controllables@.remove(e) =~= a.player_controllables@.remove(e));
        } else {
            assert(a.kind_unchanged(b, ComponentKind::PlayerControllable));
        }
    }

    fn manager(w: &World) -> &ComponentManager<PlayerControllable> {
        &w.player_controllables
    }

    fn manager_mut(w: &mut World) -> &mut ComponentManager<PlayerControllable> {
        &mut w.player_controllables
    }

    fn insert(w: &mut World, entity: &EntityId, component: PlayerControllable) {
        w.player_controllables.add(entity, component);
    }

    fn delete(w: &mut World, entity: &EntityId) {
        w.player_controllables.remove(entity);
    }
}

impl Component for Tag {
    open spec fn kind() -> ComponentKind {
        ComponentKind::Tag
    }

    closed spec fn stored(w: &World) -> Map<EntityId, Tag> {
        w.tags@
    }

    proof fn lemma_stored(w: &World) {
    }

    proof fn lemma_framed(a: &World, b: &World) {
    }

    proof fn lemma_removed(a: &World, b: &World, e: EntityId) {
    }

    proof fn lemma_removed_all(a: &World, b: &World, es: Set<EntityId>) {
    }

    proof fn lemma_rebuilt_stored(a: &World, b: &World, gone: Set<EntityId>, born: Set<EntityId>) {
    }

    proof fn lemma_rebuilt_from_stored(a: &World, b: &World, gone: Set<EntityId>, born: Set<EntityId>) {
    }

    proof fn lemma_inserted(a: &World, b: &World, e: EntityId, c: Tag) {
        assert(b.tags@ =~= a.tags@.insert(e, b.tags@[e]));
    }

    proof fn lemma_extended_stored(a: &World, b: &World, e: EntityId, kinds: Set<ComponentKind>) {
        if kinds.contains(ComponentKind::Tag) {
            assert(a.kind_extended(b, ComponentKind::Tag, e));
            assert(b.tags@.remove(e) =~= a.tags@.remove(e));
        } else {
            assert(a.kind_unchanged(b, ComponentKind::Tag));
        }
    }

    fn manager(w: &World) -> &ComponentManager<Tag> {
        &w.tags
    }

    fn manager_mut(w: &mut World) -> &mut ComponentManager<Tag> {
        &mut w.tags
    }

    fn insert(w: &mut World, entity: &EntityId, component: Tag) {
        w.tags.add(entity, component);
    }

    fn delete(w: &mut World, entity: &EntityId) {
        w.tags.remove(entity);
    }
}

impl Component for Transform {
    open spec fn kind() -> ComponentKind {
        ComponentKind::Transform
    }

    closed spec fn stored(w: &World) -> Map<EntityId, Transform> {
        w.transforms@
    }

    proof fn lemma_stored(w: &World) {
    }

    proof fn lemma_framed(a: &World, b: &World) {
    }

    proof fn lemma_removed(a: &World, b: &World, e: EntityId) {
    }

    proof fn lemma_removed_all(a: &World, b: &World, es: Set<EntityId>) {
    }

    proof fn lemma_rebuilt_stored(a: &World, b: &World, gone: Set<EntityId>, born: Set<EntityId>) {
    }

    proof fn lemma_rebuilt_from_stored(a: &World, b: &World, gone: Set<EntityId>, born: Set<EntityId>) {
    }

    proof fn lemma_inserted(a: &World, b: &World, e: EntityId, c: Transform) {
        assert(b.transforms@ =~= a.transforms@.insert(e, b.transforms@[e]));
    }

    proof fn lemma_extended_stored(a: &World, b: &World, e: EntityId, kinds: Set<ComponentKind>) {
        if kinds.contains(ComponentKind::Transform) {
            assert(a.kind_extended(b, ComponentKind::Transform, e));
            assert(b.transforms@.remove(e) =~= a.transforms@.remove(e));
        } else {
            assert(a.kind_unchanged(b, ComponentKind::Transform));
        }
    }

    fn manager(w: &World) -> &ComponentManager<Transform> {
        &w.transforms
    }

    fn manager_mut(w: &mut World) -> &mut ComponentManager<Transform> {
        &mut w.transforms
    }

    fn insert(w: &mut World, entity: &EntityId, component: Transform) {
        w.transforms.add(entity, component);
    }

    fn delete(w: &mut World, entity: &EntityId) {
        w.transforms.remove(entity);
    }
}

impl Component for Vulnerable {
    open spec fn kind() -> ComponentKind {
        ComponentKind::Vulnerable
    }

    closed spec fn stored(w: &World) -> Map<EntityId, Vulnerable> {
        w.vulnerables@
    }

    proof fn lemma_stored(w: &World) {
    }

    proof fn lemma_framed(a: &World, b: &World) {
    }

    proof fn lemma_removed(a: &World, b: &World, e: EntityId) {
    }

    proof fn lemma_removed_all(a: &World, b: &World, es: Set<EntityId>) {
    }

    proof fn lemma_rebuilt_stored(a: &World, b: &World, gone: Set<EntityId>, born: Set<EntityId>) {
    }

    proof fn lemma_rebuilt_from_stored(a: &World, b: &World, gone: Set<EntityId>, born: Set<EntityId>) {
    }

    proof fn lemma_inserted(a: &World, b: &World, e: EntityId, c: Vulnerable) {
        assert(b.vulnerables@ =~= a.vulnerables@.insert(e, b.vulnerables@[e]));
    }

    proof fn lemma_extended_stored(a: &World, b: &World, e: EntityId, kinds: Set<ComponentKind>) {
        if kinds.contains(ComponentKind::Vulnerable) {
            assert(a.kind_extended(b, ComponentKind::Vulnerable, e));
            assert(b.vulnerables@.remove(e) =~= a.vulnerables@.remove(e));
        } else {
            assert(a.kind_unchanged(b, ComponentKind::Vulnerable));
        }
    }

    fn manager(w: &World) -> &ComponentManager<Vulnerable> {
        &w.vulnerables
    }

    fn manager_mut(w: &mut World) -> &mut ComponentManager<Vulnerable> {
        &mut w.vulnerables
    }

    fn insert(w: &mut World, entity: &EntityId, component: Vulnerable) {
        w.vulnerables.add(entity, component);
    }

    fn delete(w: &mut World, entity: &EntityId) {
        w.vulnerables.remove(entity);
    }
}

impl World {
    /// Every identity this world has handed out or stored a component for.
    pub closed spec fn issued(&self) -> Set<EntityId> {
        self.issued@
    }

    pub closed spec fn wf(&self) -> bool {
        self.issued@.finite() &&
        (forall|e: EntityId| #[trigger] self.collidables@.contains_key(e) ==> self.issued@.contains(e)) &&
        (forall|e: EntityId| #[trigger] self.collisions@.contains_key(e) ==> self.issued@.contains(e)) &&
        (forall|e: EntityId| #[trigger] self.damages@.contains_key(e) ==> self.issued@.contains(e)) &&
        (forall|e: EntityId| #[trigger] self.damageds@.contains_key(e) ==> self.issued@.contains(e)) &&
        (forall|e: EntityId| #[trigger] self.drawables@.contains_key(e) ==> self.issued@.contains(e)) &&
        (forall|e: EntityId| #[trigger] self.expirables@.contains_key(e) ==> self.issued@.contains(e)) &&
        (forall|e: EntityId| #[trigger] self.physics@.contains_key(e) ==> self.issued@.contains(e)) &&
        (forall|e: EntityId| #[trigger] self.player_controllables@.contains_key(e) ==> self.issued@.contains(e)) &&
        (forall|e: EntityId| #[trigger] self.tags@.contains_key(e) ==> self.issued@.contains(e)) &&
        (forall|e: EntityId| #[trigger] self.transforms@.contains_key(e) ==> self.issued@.contains(e)) &&
        (forall|e: EntityId| #[trigger] self.vulnerables@.contains_key(e) ==> self.issued@.contains(e)) &&
        self.collidables.wf() &&
        self.collisions.wf() &&
        self.damages.wf() &&
        self.damageds.wf() &&
        self.drawables.wf() &&
        self.expirables.wf() &&
        self.physics.wf() &&
        self.player_controllables.wf() &&
        self.tags.wf() &&
        self.transforms.wf() &&
        self.vulnerables.wf()
    }

    /// The entities holding a component of kind `k`.
    pub closed spec fn dom(&self, k: ComponentKind) -> Set<EntityId> {
        match k {
            ComponentKind::Collidable => self.collidables@.dom(),
            ComponentKind::Collision => self.collisions@.dom(),
            ComponentKind::Damage => self.damages@.dom(),
            ComponentKind::Damaged => self.damageds@.dom(),
            ComponentKind::Drawable => self.drawables@.dom(),
            ComponentKind::Expirable => self.expirables@.dom(),
            ComponentKind::Physicsable => self.physics@.dom(),
            ComponentKind::PlayerControllable => self.player_controllables@.dom(),
            ComponentKind::Tag => self.tags@.dom(),
            ComponentKind::Transform => self.transforms@.dom(),
            ComponentKind::Vulnerable => self.vulnerables@.dom(),
        }
    }

    /// The entities holding a component of kind `k`, in order of insertion.
    pub closed spec fn order(&self, k: ComponentKind) -> Seq<EntityId> {
        match k {
            ComponentKind::Collidable => self.collidables.order(),
            ComponentKind::Collision => self.collisions.order(),
            ComponentKind::Damage => self.damages.order(),
            ComponentKind::Damaged => self.damageds.order(),
            ComponentKind::Drawable => self.drawables.order(),
            ComponentKind::Expirable => self.expirables.order(),
            ComponentKind::Physicsable => self.physics.order(),
            ComponentKind::PlayerControllable => self.player_controllables.order(),
            ComponentKind::Tag => self.tags.order(),
            ComponentKind::Transform => self.transforms.order(),
            ComponentKind::Vulnerable => self.vulnerables.order(),
        }
    }

    /// The store of kind `k` is the same in `self` and `other`.
    pub closed spec fn kind_unchanged(&self, other: &World, k: ComponentKind) -> bool {
        match k {
            ComponentKind::Collidable => self.collidables@ == other.collidables@ && self.collidables.order() == other.collidables.order(),
            ComponentKind::Collision => self.collisions@ == other.collisions@ && self.collisions.order() == other.collisions.order(),
            ComponentKind::Damage => self.damages@ == other.damages@ && self.damages.order() == other.damages.order(),
            ComponentKind::Damaged => self.damageds@ == other.damageds@ && self.damageds.order() == other.damageds.order(),
            ComponentKind::Drawable => self.drawables@ == other.drawables@ && self.drawables.order() == other.drawables.order(),
            ComponentKind::Expirable => self.expirables@ == other.expirables@ && self.expirables.order() == other.expirables.order(),
            ComponentKind::Physicsable => self.physics@ == other.physics@ && self.physics.order() == other.physics.order(),
            ComponentKind::PlayerControllable => self.player_controllables@ == other.player_controllables@ && self.player_controllables.order() == other.player_controllables.order(),
            ComponentKind::Tag => self.tags@ == other.tags@ && self.tags.order() == other.tags.order(),
            ComponentKind::Transform => self.transforms@ == other.transforms@ && self.transforms.order() == other.transforms.order(),
            ComponentKind::Vulnerable => self.vulnerables@ == other.vulnerables@ && self.vulnerables.order() == other.vulnerables.order(),
        }
    }

    /// The store of kind `k` in `other` is that of `self` without `e`.
    pub closed spec fn kind_removed(&self, other: &World, k: ComponentKind, e: EntityId) -> bool {
        match k {
            ComponentKind::Collidable => other.collidables@ == self.collidables@.remove(e),
            ComponentKind::Collision => other.collisions@ == self.collisions@.remove(e),
            ComponentKind::Damage => other.damages@ == self.damages@.remove(e),
            ComponentKind::Damaged => other.damageds@ == self.damageds@.remove(e),
            ComponentKind::Drawable => other.drawables@ == self.drawables@.remove(e),
            ComponentKind::Expirable => other.expirables@ == self.expirables@.remove(e),
            ComponentKind::Physicsable => other.physics@ == self.physics@.remove(e),
            ComponentKind::PlayerControllable => other.player_controllables@ == self.player_controllables@.remove(e),
            ComponentKind::Tag => other.tags@ == self.tags@.remove(e),
            ComponentKind::Transform => other.transforms@ == self.transforms@.remove(e),
            ComponentKind::Vulnerable => other.vulnerables@ == self.vulnerables@.remove(e),
        }
    }

    /// The store of kind `k` in `other` is that of `self` without `es`.
    pub closed spec fn kind_removed_all(&self, other: &World, k: ComponentKind, es: Set<EntityId>) -> bool {
        match k {
            ComponentKind::Collidable => other.collidables@ == self.collidables@.remove_keys(es),
            ComponentKind::Collision => other.collisions@ == self.collisions@.remove_keys(es),
            ComponentKind::Damage => other.damages@ == self.damages@.remove_keys(es),
            ComponentKind::Damaged => other.damageds@ == self.damageds@.remove_keys(es),
            ComponentKind::Drawable => other.drawables@ == self.drawables@.remove_keys(es),
            ComponentKind::Expirable => other.expirables@ == self.expirables@.remove_keys(es),
            ComponentKind::Physicsable => other.physics@ == self.physics@.remove_keys(es),
            ComponentKind::PlayerControllable => other.player_controllables@ == self.player_controllables@.remove_keys(es),
            ComponentKind::Tag => other.tags@ == self.tags@.remove_keys(es),
            ComponentKind::Transform => other.transforms@ == self.transforms@.remove_keys(es),
            ComponentKind::Vulnerable => other.vulnerables@ == self.vulnerables@.remove_keys(es),
        }
    }

    /// Leaving out the entities `born` from the store of kind `k` in `other`
    /// gives that of `self` without the entities `gone`.
    pub closed spec fn kind_rebuilt(&self, other: &World, k: ComponentKind, gone: Set<EntityId>, born: Set<EntityId>) -> bool {
        match k {
            ComponentKind::Collidable => other.collidables@.remove_keys(born) == self.collidables@.remove_keys(gone),
            ComponentKind::Collision => other.collisions@.remove_keys(born) == self.collisions@.remove_keys(gone),
            ComponentKind::Damage => other.damages@.remove_keys(born) == self.damages@.remove_keys(gone),
            ComponentKind::Damaged => other.damageds@.remove_keys(born) == self.damageds@.remove_keys(gone),
            ComponentKind::Drawable => other.drawables@.remove_keys(born) == self.drawables@.remove_keys(gone),
            ComponentKind::Expirable => other.expirables@.remove_keys(born) == self.expirables@.remove_keys(gone),
            ComponentKind::Physicsable => other.physics@.remove_keys(born) == self.physics@.remove_keys(gone),
            ComponentKind::PlayerControllable => other.player_controllables@.remove_keys(born) == self.player_controllables@.remove_keys(gone),
            ComponentKind::Tag => other.tags@.remove_keys(born) == self.tags@.remove_keys(gone),
            ComponentKind::Transform => other.transforms@.remove_keys(born) == self.transforms@.remove_keys(gone),
            ComponentKind::Vulnerable => other.vulnerables@.remove_keys(born) == self.vulnerables@.remove_keys(gone),
        }
    }

    /// Every store of `other` is that of `self` without the entities `gone`,
    /// apart from the components of the new entities `born`.
    pub open spec fn rebuilt(&self, other: &World, gone: Set<EntityId>, born: Set<EntityId>) -> bool {
        forall|k: ComponentKind| #[trigger] self.kind_rebuilt(other, k, gone, born)
    }

    /// The store of kind `k` in `other` is that of `self` with a component
    /// for `e` set.
    pub closed spec fn kind_extended(&self, other: &World, k: ComponentKind, e: EntityId) -> bool {
        match k {
            ComponentKind::Collidable => other.collidables@ == self.collidables@.insert(e, other.collidables@[e]),
            ComponentKind::Collision => other.collisions@ == self.collisions@.insert(e, other.collisions@[e]),
            ComponentKind::Damage => other.damages@ == self.damages@.insert(e, other.damages@[e]),
            ComponentKind::Damaged => other.damageds@ == self.damageds@.insert(e, other.damageds@[e]),
            ComponentKind::Drawable => other.drawables@ == self.drawables@.insert(e, other.drawables@[e]),
            ComponentKind::Expirable => other.expirables@ == self.expirables@.insert(e, other.expirables@[e]),
            ComponentKind::Physicsable => other.physics@ == self.physics@.insert(e, other.physics@[e]),
            ComponentKind::PlayerControllable => other.player_controllables@ == self.player_controllables@.insert(e, other.player_controllables@[e]),
            ComponentKind::Tag => other.tags@ == self.tags@.insert(e, other.tags@[e]),
            ComponentKind::Transform => other.transforms@ == self.transforms@.insert(e, other.transforms@[e]),
            ComponentKind::Vulnerable => other.vulnerables@ == self.vulnerables@.insert(e, other.vulnerables@[e]),
        }
    }

    /// `other` is `self` with components of the kinds in `kinds` set for
    /// `e`, and nothing else changed.
    pub open spec fn extended(&self, other: &World, e: EntityId, kinds: Set<ComponentKind>) -> bool {
        &&& forall|k: ComponentKind| kinds.contains(k) ==> #[trigger] self.kind_extended(other, k, e)
        &&& forall|k: ComponentKind| !kinds.contains(k) ==> #[trigger] self.kind_unchanged(other, k)
    }

    /// Every store but that of kind `k` is the same in `self` and `other`.
    pub open spec fn unchanged_except(&self, other: &World, k: ComponentKind) -> bool {
        forall|k2: ComponentKind| k2 != k ==> #[trigger] self.kind_unchanged(other, k2)
    }

    pub open spec fn has(&self, k: ComponentKind, e: EntityId) -> bool {
        self.dom(k).contains(e)
    }

    /// `e` holds at least one component.
    pub open spec fn is_live(&self, e: EntityId) -> bool {
        exists|k: ComponentKind| #[trigger] self.has(k, e)
    }

    /// The entities holding every kind in `kinds`; none when `kinds` is empty.
    pub open spec fn holding_all(&self, kinds: Seq<ComponentKind>) -> Set<EntityId> {
        Set::new(
            |e: EntityId|
                kinds.len() > 0 && forall|i: int| 0 <= i < kinds.len() ==> #[trigger] self.has(kinds[i], e),
        )
    }

    pub proof fn lemma_order(&self, k: ComponentKind)
        requires
            self.wf(),
        ensures
            self.order(k).no_duplicates(),
            forall|e: EntityId| #[trigger] self.order(k).contains(e) <==> self.has(k, e),
            self.dom(k).finite(),
    {
        match k {
            ComponentKind::Collidable => self.collidables.lemma_order(),
            ComponentKind::Collision => self.collisions.lemma_order(),
            ComponentKind::Damage => self.damages.lemma_order(),
            ComponentKind::Damaged => self.damageds.lemma_order(),
            ComponentKind::Drawable => self.drawables.lemma_order(),
            ComponentKind::Expirable => self.expirables.lemma_order(),
            ComponentKind::Physicsable => self.physics.lemma_order(),
            ComponentKind::PlayerControllable => self.player_controllables.lemma_order(),
            ComponentKind::Tag => self.tags.lemma_order(),
            ComponentKind::Transform => self.transforms.lemma_order(),
            ComponentKind::Vulnerable => self.vulnerables.lemma_order(),
        }
    }

    pub proof fn lemma_unchanged(&self, other: &World, k: ComponentKind)
        requires
            self.kind_unchanged(other, k),
        ensures
            self.dom(k) == other.dom(k),
            self.order(k) == other.order(k),
    {
    }

    pub proof fn lemma_unchanged_refl(&self, k: ComponentKind)
        ensures
            self.unchanged_except(self, k),
    {
    }

    pub proof fn lemma_kind_unchanged_refl(&self)
        ensures
            forall|k: ComponentKind| #[trigger] self.kind_unchanged(self, k),
    {
        assert forall|k: ComponentKind| #[trigger] self.kind_unchanged(self, k) by {}
    }

    pub proof fn lemma_kind_unchanged_trans(a: &World, b: &World, c: &World, k: ComponentKind)
        requires
            a.kind_unchanged(b, k),
            b.kind_unchanged(c, k),
        ensures
            a.kind_unchanged(c, k),
    {
    }

    pub proof fn lemma_unchanged_trans(a: &World, b: &World, c: &World, k: ComponentKind)
        requires
            a.unchanged_except(b, k),
            b.unchanged_except(c, k),
        ensures
            a.unchanged_except(c, k),
    {
        assert forall|k2: ComponentKind| k2 != k implies #[trigger] a.kind_unchanged(c, k2) by {
            assert(a.kind_unchanged(b, k2));
            assert(b.kind_unchanged(c, k2));
        }
    }

    pub proof fn lemma_rebuilt_unchanged(a: &World, b: &World, k: ComponentKind)
        requires
            a.kind_unchanged(b, k),
        ensures
            a.kind_rebuilt(b, k, Set::empty(), Set::empty()),
    {
        match k {
            ComponentKind::Collidable => { assert(b.collidables@.remove_keys(Set::empty()) =~= a.collidables@.remove_keys(Set::empty())); }
            ComponentKind::Collision => { assert(b.collisions@.remove_keys(Set::empty()) =~= a.collisions@.remove_keys(Set::empty())); }
            ComponentKind::Damage => { assert(b.damages@.remove_keys(Set::empty()) =~= a.damages@.remove_keys(Set::empty())); }
            ComponentKind::Damaged => { assert(b.damageds@.remove_keys(Set::empty()) =~= a.damageds@.remove_keys(Set::empty())); }
            ComponentKind::Drawable => { assert(b.drawables@.remove_keys(Set::empty()) =~= a.drawables@.remove_keys(Set::empty())); }
            ComponentKind::Expirable => { assert(b.expirables@.remove_keys(Set::empty()) =~= a.expirables@.remove_keys(Set::empty())); }
            ComponentKind::Physicsable => { assert(b.physics@.remove_keys(Set::empty()) =~= a.physics@.remove_keys(Set::empty())); }
            ComponentKind::PlayerControllable => { assert(b.player_controllables@.remove_keys(Set::empty()) =~= a.player_controllables@.remove_keys(Set::empty())); }
            ComponentKind::Tag => { assert(b.tags@.remove_keys(Set::empty()) =~= a.tags@.remove_keys(Set::empty())); }
            ComponentKind::Transform => { assert(b.transforms@.remove_keys(Set::empty()) =~= a.transforms@.remove_keys(Set::empty())); }
            ComponentKind::Vulnerable => { assert(b.vulnerables@.remove_keys(Set::empty()) =~= a.vulnerables@.remove_keys(Set::empty())); }
        }
    }

    pub proof fn lemma_rebuilt_trans(
        a: &World,
        b: &World,
        c: &World,
        k: ComponentKind,
        g1: Set<EntityId>,
        b1: Set<EntityId>,
        g2: Set<EntityId>,
        b2: Set<EntityId>,
    )
        requires
            a.kind_rebuilt(b, k, g1, b1),
            b.kind_rebuilt(c, k, g2, b2),
        ensures
            a.kind_rebuilt(c, k, g1.union(g2), b1.union(b2)),
    {
        match k {
            ComponentKind::Collidable => { lemma_remove_keys_twice(c.collidables@, b2, b1); lemma_remove_keys_twice(a.collidables@, g1, g2); lemma_remove_keys_twice(b.collidables@, b1, g2); lemma_remove_keys_twice(b.collidables@, g2, b1); assert(b1.union(b2) =~= b2.union(b1)); assert(g2.union(b1) =~= b1.union(g2)); }
            ComponentKind::Collision => { lemma_remove_keys_twice(c.collisions@, b2, b1); lemma_remove_keys_twice(a.collisions@, g1, g2); lemma_remove_keys_twice(b.collisions@, b1, g2); lemma_remove_keys_twice(b.collisions@, g2, b1); assert(b1.union(b2) =~= b2.union(b1)); assert(g2.union(b1) =~= b1.union(g2)); }
            ComponentKind::Damage => { lemma_remove_keys_twice(c.damages@, b2, b1); lemma_remove_keys_twice(a.damages@, g1, g2); lemma_remove_keys_twice(b.damages@, b1, g2); lemma_remove_keys_twice(b.damages@, g2, b1); assert(b1.union(b2) =~= b2.union(b1)); assert(g2.union(b1) =~= b1.union(g2)); }
            ComponentKind::Damaged => { lemma_remove_keys_twice(c.damageds@, b2, b1); lemma_remove_keys_twice(a.damageds@, g1, g2); lemma_remove_keys_twice(b.damageds@, b1, g2); lemma_remove_keys_twice(b.damageds@, g2, b1); assert(b1.union(b2) =~= b2.union(b1)); assert(g2.union(b1) =~= b1.union(g2)); }
            ComponentKind::Drawable => { lemma_remove_keys_twice(c.drawables@, b2, b1); lemma_remove_keys_twice(a.drawables@, g1, g2); lemma_remove_keys_twice(b.drawables@, b1, g2); lemma_remove_keys_twice(b.drawables@, g2, b1); assert(b1.union(b2) =~= b2.union(b1)); assert(g2.union(b1) =~= b1.union(g2)); }
            ComponentKind::Expirable => { lemma_remove_keys_twice(c.expirables@, b2, b1); lemma_remove_keys_twice(a.expirables@, g1, g2); lemma_remove_keys_twice(b.expirables@, b1, g2); lemma_remove_keys_twice(b.expirables@, g2, b1); assert(b1.union(b2) =~= b2.union(b1)); assert(g2.union(b1) =~= b1.union(g2)); }
            ComponentKind::Physicsable => { lemma_remove_keys_twice(c.physics@, b2, b1); lemma_remove_keys_twice(a.physics@, g1, g2); lemma_remove_keys_twice(b.physics@, b1, g2); lemma_remove_keys_twice(b.physics@, g2, b1); assert(b1.union(b2) =~= b2.union(b1)); assert(g2.union(b1) =~= b1.union(g2)); }
            ComponentKind::PlayerControllable => { lemma_remove_keys_twice(c.player_controllables@, b2, b1); lemma_remove_keys_twice(a.player_controllables@, g1, g2); lemma_remove_keys_twice(b.player_controllables@, b1, g2); lemma_remove_keys_twice(b.player_controllables@, g2, b1); assert(b1.union(b2) =~= b2.union(b1)); assert(g2.union(b1) =~= b1.union(g2)); }
            ComponentKind::Tag => { lemma_remove_keys_twice(c.tags@, b2, b1); lemma_remove_keys_twice(a.tags@, g1, g2); lemma_remove_keys_twice(b.tags@, b1, g2); lemma_remove_keys_twice(b.tags@, g2, b1); assert(b1.union(b2) =~= b2.union(b1)); assert(g2.union(b1) =~= b1.union(g2)); }
            ComponentKind::Transform => { lemma_remove_keys_twice(c.transforms@, b2, b1); lemma_remove_keys_twice(a.transforms@, g1, g2); lemma_remove_keys_twice(b.transforms@, b1, g2); lemma_remove_keys_twice(b.transforms@, g2, b1); assert(b1.union(b2) =~= b2.union(b1)); assert(g2.union(b1) =~= b1.union(g2)); }
            ComponentKind::Vulnerable => { lemma_remove_keys_twice(c.vulnerables@, b2, b1); lemma_remove_keys_twice(a.vulnerables@, g1, g2); lemma_remove_keys_twice(b.vulnerables@, b1, g2); lemma_remove_keys_twice(b.vulnerables@, g2, b1); assert(b1.union(b2) =~= b2.union(b1)); assert(g2.union(b1) =~= b1.union(g2)); }
        }
    }

    pub proof fn lemma_rebuilt_extended(a: &World, b: &World, e: EntityId, kinds: Set<ComponentKind>, k: ComponentKind)
        requires
            a.extended(b, e, kinds),
            !a.is_live(e),
        ensures
            a.kind_rebuilt(b, k, Set::empty(), set![e]),
    {
        assert(!a.has(k, e));
        if kinds.contains(k) {
            assert(a.kind_extended(b, k, e));
        } else {
            assert(a.kind_unchanged(b, k));
        }
        match k {
            ComponentKind::Collidable => { assert(b.collidables@.remove_keys(set![e]) =~= a.collidables@.remove_keys(Set::empty())); }
            ComponentKind::Collision => { assert(b.collisions@.remove_keys(set![e]) =~= a.collisions@.remove_keys(Set::empty())); }
            ComponentKind::Damage => { assert(b.damages@.remove_keys(set![e]) =~= a.damages@.remove_keys(Set::empty())); }
            ComponentKind::Damaged => { assert(b.damageds@.remove_keys(set![e]) =~= a.damageds@.remove_keys(Set::empty())); }
            ComponentKind::Drawable => { assert(b.drawables@.remove_keys(set![e]) =~= a.drawables@.remove_keys(Set::empty())); }
            ComponentKind::Expirable => { assert(b.expirables@.remove_keys(set![e]) =~= a.expirables@.remove_keys(Set::empty())); }
            ComponentKind::Physicsable => { assert(b.physics@.remove_keys(set![e]) =~= a.physics@.remove_keys(Set::empty())); }
            ComponentKind::PlayerControllable => { assert(b.player_controllables@.remove_keys(set![e]) =~= a.player_controllables@.remove_keys(Set::empty())); }
            ComponentKind::Tag => { assert(b.tags@.remove_keys(set![e]) =~= a.tags@.remove_keys(Set::empty())); }
            ComponentKind::Transform => { assert(b.transforms@.remove_keys(set![e]) =~= a.transforms@.remove_keys(Set::empty())); }
            ComponentKind::Vulnerable => { assert(b.vulnerables@.remove_keys(set![e]) =~= a.vulnerables@.remove_keys(Set::empty())); }
        }
    }

    pub proof fn lemma_rebuilt_removed(a: &World, b: &World, e: EntityId, k: ComponentKind)
        requires
            a.kind_removed(b, k, e),
        ensures
            a.kind_rebuilt(b, k, set![e], Set::empty()),
    {
        match k {
            ComponentKind::Collidable => { assert(b.collidables@.remove_keys(Set::empty()) =~= a.collidables@.remove_keys(set![e])); }
            ComponentKind::Collision => { assert(b.collisions@.remove_keys(Set::empty()) =~= a.collisions@.remove_keys(set![e])); }
            ComponentKind::Damage => { assert(b.damages@.remove_keys(Set::empty()) =~= a.damages@.remove_keys(set![e])); }
            ComponentKind::Damaged => { assert(b.damageds@.remove_keys(Set::empty()) =~= a.damageds@.remove_keys(set![e])); }
            ComponentKind::Drawable => { assert(b.drawables@.remove_keys(Set::empty()) =~= a.drawables@.remove_keys(set![e])); }
            ComponentKind::Expirable => { assert(b.expirables@.remove_keys(Set::empty()) =~= a.expirables@.remove_keys(set![e])); }
            ComponentKind::Physicsable => { assert(b.physics@.remove_keys(Set::empty()) =~= a.physics@.remove_keys(set![e])); }
            ComponentKind::PlayerControllable => { assert(b.player_controllables@.remove_keys(Set::empty()) =~= a.player_controllables@.remove_keys(set![e])); }
            ComponentKind::Tag => { assert(b.tags@.remove_keys(Set::empty()) =~= a.tags@.remove_keys(set![e])); }
            ComponentKind::Transform => { assert(b.transforms@.remove_keys(Set::empty()) =~= a.transforms@.remove_keys(set![e])); }
            ComponentKind::Vulnerable => { assert(b.vulnerables@.remove_keys(Set::empty()) =~= a.vulnerables@.remove_keys(set![e])); }
        }
    }

    pub proof fn lemma_rebuilt_removed_all(a: &World, b: &World, es: Set<EntityId>, k: ComponentKind)
        requires
            a.kind_removed_all(b, k, es),
        ensures
            a.kind_rebuilt(b, k, es, Set::empty()),
    {
        match k {
            ComponentKind::Collidable => { assert(b.collidables@.remove_keys(Set::empty()) =~= a.collidables@.remove_keys(es)); }
            ComponentKind::Collision => { assert(b.collisions@.remove_keys(Set::empty()) =~= a.collisions@.remove_keys(es)); }
            ComponentKind::Damage => { assert(b.damages@.remove_keys(Set::empty()) =~= a.damages@.remove_keys(es)); }
            ComponentKind::Damaged => { assert(b.damageds@.remove_keys(Set::empty()) =~= a.damageds@.remove_keys(es)); }
            ComponentKind::Drawable => { assert(b.drawables@.remove_keys(Set::empty()) =~= a.drawables@.remove_keys(es)); }
            ComponentKind::Expirable => { assert(b.expirables@.remove_keys(Set::empty()) =~= a.expirables@.remove_keys(es)); }
            ComponentKind::Physicsable => { assert(b.physics@.remove_keys(Set::empty()) =~= a.physics@.remove_keys(es)); }
            ComponentKind::PlayerControllable => { assert(b.player_controllables@.remove_keys(Set::empty()) =~= a.player_controllables@.remove_keys(es)); }
            ComponentKind::Tag => { assert(b.tags@.remove_keys(Set::empty()) =~= a.tags@.remove_keys(es)); }
            ComponentKind::Transform => { assert(b.transforms@.remove_keys(Set::empty()) =~= a.transforms@.remove_keys(es)); }
            ComponentKind::Vulnerable => { assert(b.vulnerables@.remove_keys(Set::empty()) =~= a.vulnerables@.remove_keys(es)); }
        }
    }

    /// Which entities hold a kind after a rebuild.
    pub proof fn lemma_rebuilt_has(a: &World, b: &World, k: ComponentKind, gone: Set<EntityId>, born: Set<EntityId>, x: EntityId)
        requires
            a.kind_rebuilt(b, k, gone, born),
            !born.contains(x),
        ensures
            b.has(k, x) == (a.has(k, x) && !gone.contains(x)),
    {
        match k {
            ComponentKind::Collidable => { assert(b.collidables@.remove_keys(born).contains_key(x) == b.collidables@.contains_key(x)); assert(a.collidables@.remove_keys(gone).contains_key(x) == (a.collidables@.contains_key(x) && !gone.contains(x))); }
            ComponentKind::Collision => { assert(b.collisions@.remove_keys(born).contains_key(x) == b.collisions@.contains_key(x)); assert(a.collisions@.remove_keys(gone).contains_key(x) == (a.collisions@.contains_key(x) && !gone.contains(x))); }
            ComponentKind::Damage => { assert(b.damages@.remove_keys(born).contains_key(x) == b.damages@.contains_key(x)); assert(a.damages@.remove_keys(gone).contains_key(x) == (a.damages@.contains_key(x) && !gone.contains(x))); }
            ComponentKind::Damaged => { assert(b.damageds@.remove_keys(born).contains_key(x) == b.damageds@.contains_key(x)); assert(a.damageds@.remove_keys(gone).contains_key(x) == (a.damageds@.contains_key(x) && !gone.contains(x))); }
            ComponentKind::Drawable => { assert(b.drawables@.remove_keys(born).contains_key(x) == b.drawables@.contains_key(x)); assert(a.drawables@.remove_keys(gone).contains_key(x) == (a.drawables@.contains_key(x) && !gone.contains(x))); }
            ComponentKind::Expirable => { assert(b.expirables@.remove_keys(born).contains_key(x) == b.expirables@.contains_key(x)); assert(a.expirables@.remove_keys(gone).contains_key(x) == (a.expirables@.contains_key(x) && !gone.contains(x))); }
            ComponentKind::Physicsable => { assert(b.physics@.remove_keys(born).contains_key(x) == b.physics@.contains_key(x)); assert(a.physics@.remove_keys(gone).contains_key(x) == (a.physics@.contains_key(x) && !gone.contains(x))); }
            ComponentKind::PlayerControllable => { assert(b.player_controllables@.remove_keys(born).contains_key(x) == b.player_controllables@.contains_key(x)); assert(a.player_controllables@.remove_keys(gone).contains_key(x) == (a.player_controllables@.contains_key(x) && !gone.contains(x))); }
            ComponentKind::Tag => { assert(b.tags@.remove_keys(born).contains_key(x) == b.tags@.contains_key(x)); assert(a.tags@.remove_keys(gone).contains_key(x) == (a.tags@.contains_key(x) && !gone.contains(x))); }
            ComponentKind::Transform => { assert(b.transforms@.remove_keys(born).contains_key(x) == b.transforms@.contains_key(x)); assert(a.transforms@.remove_keys(gone).contains_key(x) == (a.transforms@.contains_key(x) && !gone.contains(x))); }
            ComponentKind::Vulnerable => { assert(b.vulnerables@.remove_keys(born).contains_key(x) == b.vulnerables@.contains_key(x)); assert(a.vulnerables@.remove_keys(gone).contains_key(x) == (a.vulnerables@.contains_key(x) && !gone.contains(x))); }
        }
    }

    pub proof fn lemma_extended_step(a: &World, b: &World, c: &World, e: EntityId, kinds: Set<ComponentKind>, k: ComponentKind)
        requires
            a.extended(b, e, kinds),
            b.unchanged_except(c, k),
            b.kind_extended(c, k, e),
        ensures
            a.extended(c, e, kinds.insert(k)),
    {
        assert forall|k2: ComponentKind| kinds.insert(k).contains(k2) implies #[trigger] a.kind_extended(c, k2, e) by {
            if kinds.contains(k2) {
                assert(a.kind_extended(b, k2, e));
            } else {
                assert(a.kind_unchanged(b, k2));
            }
            if k2 == k {
                assert(b.kind_extended(c, k, e));
            } else {
                assert(b.kind_unchanged(c, k2));
            }
            match k2 {
                ComponentKind::Collidable => { assert(c.collidables@ =~= a.collidables@.insert(e, c.collidables@[e])); }
                ComponentKind::Collision => { assert(c.collisions@ =~= a.collisions@.insert(e, c.collisions@[e])); }
                ComponentKind::Damage => { assert(c.damages@ =~= a.damages@.insert(e, c.damages@[e])); }
                ComponentKind::Damaged => { assert(c.damageds@ =~= a.damageds@.insert(e, c.damageds@[e])); }
                ComponentKind::Drawable => { assert(c.drawables@ =~= a.drawables@.insert(e, c.drawables@[e])); }
                ComponentKind::Expirable => { assert(c.expirables@ =~= a.expirables@.insert(e, c.expirables@[e])); }
                ComponentKind::Physicsable => { assert(c.physics@ =~= a.physics@.insert(e, c.physics@[e])); }
                ComponentKind::PlayerControllable => { assert(c.player_controllables@ =~= a.player_controllables@.insert(e, c.player_controllables@[e])); }
                ComponentKind::Tag => { assert(c.tags@ =~= a.tags@.insert(e, c.tags@[e])); }
                ComponentKind::Transform => { assert(c.transforms@ =~= a.transforms@.insert(e, c.transforms@[e])); }
                ComponentKind::Vulnerable => { assert(c.vulnerables@ =~= a.vulnerables@.insert(e, c.vulnerables@[e])); }
            }
        }
        assert forall|k2: ComponentKind| !kinds.insert(k).contains(k2) implies #[trigger] a.kind_unchanged(c, k2) by {
            assert(a.kind_unchanged(b, k2));
            assert(b.kind_unchanged(c, k2));
        }
    }

    /// Whether entities hold components before and after an extension.
    pub proof fn lemma_extended_has(a: &World, b: &World, e: EntityId, kinds: Set<ComponentKind>)
        requires
            a.extended(b, e, kinds),
        ensures
            forall|k: ComponentKind, x: EntityId| x != e ==> #[trigger] b.has(k, x) == a.has(k, x),
            forall|k: ComponentKind| kinds.contains(k) ==> #[trigger] b.has(k, e),
            forall|k: ComponentKind| !kinds.contains(k) ==> #[trigger] b.has(k, e) == a.has(k, e),
    {
        assert forall|k: ComponentKind, x: EntityId| x != e implies #[trigger] b.has(k, x) == a.has(k, x) by {
            if kinds.contains(k) {
                assert(a.kind_extended(b, k, e));
            } else {
                assert(a.kind_unchanged(b, k));
            }
        }
        assert forall|k: ComponentKind| kinds.contains(k) implies #[trigger] b.has(k, e) by {
            assert(a.kind_extended(b, k, e));
        }
        assert forall|k: ComponentKind| !kinds.contains(k) implies #[trigger] b.has(k, e) == a.has(k, e) by {
            assert(a.kind_unchanged(b, k));
        }
    }

    pub fn new() -> (r: World)
        ensures
            r.wf(),
            r.issued() == Set::<EntityId>::empty(),
            forall|k: ComponentKind, e: EntityId| !r.has(k, e),
    {
        World {
            issued: HashSet::new(),
            collidables: ComponentManager::new(),
            collisions: ComponentManager::new(),
            damages: ComponentManager::new(),
            damageds: ComponentManager::new(),
            drawables: ComponentManager::new(),
            expirables: ComponentManager::new(),
            physics: ComponentManager::new(),
            player_controllables: ComponentManager::new(),
            tags: ComponentManager::new(),
            transforms: ComponentManager::new(),
            vulnerables: ComponentManager::new(),
        }
    }

    /// The component of kind `T` of `entity`, if it has one.
    pub fn get<T: Component>(&self, entity: &EntityId) -> (r: Option<&T>)
        requires
            self.wf(),
        ensures
            r.is_some() == T::stored(self).contains_key(*entity),
            r.is_some() ==> *r.unwrap() == T::stored(self)[*entity],
    {
        T::manager(self).get(entity)
    }

    /// The component of kind `T` of `entity`, if it has one, to change in
    /// place; no other component changes.
    pub fn get_mut<T: Component>(&mut self, entity: &EntityId) -> (r: Option<&mut T>)
        requires
            old(self).wf(),
        ensures
            final(self).issued() == old(self).issued(),
            r.is_some() == T::stored(old(self)).contains_key(*entity),
            old(self).unchanged_except(final(self), T::kind()),
            match r {
                Some(v) => {
                    &&& *v == T::stored(old(self))[*entity]
                    &&& final(self).wf()
                    &&& T::stored(final(self)) == T::stored(old(self)).insert(*entity, *final(v))
                },
                None => final(self).wf() && T::stored(final(self)) == T::stored(old(self)),
            },
    {
        T::manager_mut(self).get_mut(entity)
    }

    /// Stores `component` for `entity`, replacing one of the same kind.
    pub fn add<T: Component>(&mut self, entity: &EntityId, component: T)
        requires
            old(self).wf(),
        ensures
            final(self).issued() == old(self).issued().insert(*entity),
            final(self).wf(),
            T::stored(final(self)) == T::stored(old(self)).insert(*entity, component),
            old(self).unchanged_except(final(self), T::kind()),
            final(self).order(T::kind()) == if old(self).has(T::kind(), *entity) {
                old(self).order(T::kind())
            } else {
                old(self).order(T::kind()).push(*entity)
            },
    {
        self.issued.insert(*entity);
        proof {
            let mid = *self;
            assert forall|k: ComponentKind| #[trigger] old(self).kind_unchanged(&mid, k) by {
                old(self).lemma_kind_unchanged_refl();
            }
            T::lemma_framed(old(self), &mid);
        }
        let ghost mid = *self;
        T::insert(self, entity, component);
        proof {
            World::lemma_unchanged_trans(old(self), &mid, self, T::kind());
            old(self).lemma_order(T::kind());
            assert(old(self).kind_unchanged(&mid, T::kind()));
            old(self).lemma_unchanged(&mid, T::kind());
        }
    }

    /// Drops the component of kind `T` of `entity`, if any.
    pub fn remove_component<T: Component>(&mut self, entity: &EntityId)
        requires
            old(self).wf(),
        ensures
            final(self).issued() == old(self).issued(),
            final(self).wf(),
            T::stored(final(self)) == T::stored(old(self)).remove(*entity),
            old(self).unchanged_except(final(self), T::kind()),
    {
        T::delete(self, entity);
    }

    /// Drops every component of `entity`.
    pub fn remove(&mut self, entity: &EntityId)
        requires
            old(self).wf(),
        ensures
            final(self).issued() == old(self).issued(),
            final(self).wf(),
            forall|k: ComponentKind| #[trigger] old(self).kind_removed(final(self), k, *entity),
            forall|k: ComponentKind, e: EntityId| #[trigger] final(self).has(k, e) == (old(self).has(k, e) && e != *entity),
    {
        self.collidables.remove(entity);
        self.collisions.remove(entity);
        self.damages.remove(entity);
        self.damageds.remove(entity);
        self.drawables.remove(entity);
        self.expirables.remove(entity);
        self.physics.remove(entity);
        self.player_controllables.remove(entity);
        self.tags.remove(entity);
        self.transforms.remove(entity);
        self.vulnerables.remove(entity);
    }

    /// Drops every component of each of `entities`.
    pub fn remove_all(&mut self, entities: Vec<EntityId>)
        requires
            old(self).wf(),
        ensures
            final(self).issued() == old(self).issued(),
            final(self).wf(),
            forall|k: ComponentKind, e: EntityId| #[trigger] final(self).has(k, e) == (old(self).has(k, e) && !entities@.contains(e)),
            forall|k: ComponentKind| #[trigger] old(self).kind_removed_all(final(self), k, entities@.to_set()),
    {
        proof {
            let empty = entities@.subrange(0, 0).to_set();
            assert(empty =~= Set::<EntityId>::empty());
            assert forall|k: ComponentKind| #[trigger] old(self).kind_removed_all(self, k, empty) by {
                match k {
                    ComponentKind::Collidable => { assert(self.collidables@ =~= self.collidables@.remove_keys(empty)); }
                    ComponentKind::Collision => { assert(self.collisions@ =~= self.collisions@.remove_keys(empty)); }
                    ComponentKind::Damage => { assert(self.damages@ =~= self.damages@.remove_keys(empty)); }
                    ComponentKind::Damaged => { assert(self.damageds@ =~= self.damageds@.remove_keys(empty)); }
                    ComponentKind::Drawable => { assert(self.drawables@ =~= self.drawables@.remove_keys(empty)); }
                    ComponentKind::Expirable => { assert(self.expirables@ =~= self.expirables@.remove_keys(empty)); }
                    ComponentKind::Physicsable => { assert(self.physics@ =~= self.physics@.remove_keys(empty)); }
                    ComponentKind::PlayerControllable => { assert(self.player_controllables@ =~= self.player_controllables@.remove_keys(empty)); }
                    ComponentKind::Tag => { assert(self.tags@ =~= self.tags@.remove_keys(empty)); }
                    ComponentKind::Transform => { assert(self.transforms@ =~= self.transforms@.remove_keys(empty)); }
                    ComponentKind::Vulnerable => { assert(self.vulnerables@ =~= self.vulnerables@.remove_keys(empty)); }
                }
            }
        }
        let mut i: usize = 0;
        while i < entities.len()
            invariant
                self.wf(),
                0 <= i <= entities@.len(),
                forall|k: ComponentKind, e: EntityId| #[trigger] self.has(k, e) == (old(self).has(k, e) && !entities@.subrange(0, i as int).contains(e)),
                forall|k: ComponentKind| #[trigger] old(self).kind_removed_all(self, k, entities@.subrange(0, i as int).to_set()),
                self.issued() == old(self).issued(),
            decreases entities@.len() - i,
        {
            let e = entities[i];
            let ghost mid = *self;
            self.remove(&e);
            proof {
                let set0 = entities@.subrange(0, i as int).to_set();
                let set1 = entities@.subrange(0, i + 1).to_set();
                assert(entities@.subrange(0, i + 1) =~= entities@.subrange(0, i as int).push(e));
                assert forall|x: EntityId| set1.contains(x) == set0.insert(e).contains(x) by {
                    let sub0 = entities@.subrange(0, i as int);
                    let sub1 = entities@.subrange(0, i + 1);
                    if sub0.contains(x) {
                        let j = choose|j: int| 0 <= j < sub0.len() && sub0[j] == x;
                        assert(sub1[j] == x);
                    }
                    if x == e {
                        assert(sub1[i as int] == x);
                    }
                    if sub1.contains(x) && x != e {
                        let j = choose|j: int| 0 <= j < sub1.len() && sub1[j] == x;
                        assert(sub0[j] == x);
                    }
                }
                assert(set1 =~= set0.insert(e));
                assert forall|k: ComponentKind| #[trigger] old(self).kind_removed_all(self, k, set1) by {
                    assert(old(self).kind_removed_all(&mid, k, set0));
                    assert(mid.kind_removed(self, k, e));
                    match k {
                        ComponentKind::Collidable => { assert(self.collidables@ =~= old(self).collidables@.remove_keys(set1)); }
                        ComponentKind::Collision => { assert(self.collisions@ =~= old(self).collisions@.remove_keys(set1)); }
                        ComponentKind::Damage => { assert(self.damages@ =~= old(self).damages@.remove_keys(set1)); }
                        ComponentKind::Damaged => { assert(self.damageds@ =~= old(self).damageds@.remove_keys(set1)); }
                        ComponentKind::Drawable => { assert(self.drawables@ =~= old(self).drawables@.remove_keys(set1)); }
                        ComponentKind::Expirable => { assert(self.expirables@ =~= old(self).expirables@.remove_keys(set1)); }
                        ComponentKind::Physicsable => { assert(self.physics@ =~= old(self).physics@.remove_keys(set1)); }
                        ComponentKind::PlayerControllable => { assert(self.player_controllables@ =~= old(self).player_controllables@.remove_keys(set1)); }
                        ComponentKind::Tag => { assert(self.tags@ =~= old(self).tags@.remove_keys(set1)); }
                        ComponentKind::Transform => { assert(self.transforms@ =~= old(self).transforms@.remove_keys(set1)); }
                        ComponentKind::Vulnerable => { assert(self.vulnerables@ =~= old(self).vulnerables@.remove_keys(set1)); }
                    }
                }
            }
            proof {
                let sub0 = entities@.subrange(0, i as int);
                let sub1 = entities@.subrange(0, i + 1);
                assert(sub1 =~= sub0.push(e));
                assert forall|k: ComponentKind, x: EntityId| #[trigger] self.has(k, x) == (old(self).has(k, x) && !sub1.contains(x)) by {
                    if sub0.contains(x) {
                        let j = choose|j: int| 0 <= j < sub0.len() && sub0[j] == x;
                        assert(sub1[j] == x);
                    }
                    if x == e {
                        assert(sub1[i as int] == x);
                    }
                    if sub1.contains(x) && x != e {
                        let j = choose|j: int| 0 <= j < sub1.len() && sub1[j] == x;
                        assert(sub0[j] == x);
                    }
                }
            }
            i = i + 1;
        }
        assert(entities@.subrange(0, i as int) =~= entities@);
    }

    /// Removes every entity that holds a component of kind `T`, with all of
    /// its components.
    pub fn clear<T: Component>(&mut self)
        requires
            old(self).wf(),
        ensures
            final(self).issued() == old(self).issued(),
            final(self).wf(),
            forall|k: ComponentKind| #[trigger] old(self).kind_removed_all(final(self), k, old(self).dom(T::kind())),
            forall|k: ComponentKind, e: EntityId| #[trigger] final(self).has(k, e) == (old(self).has(k, e) && !old(self).has(T::kind(), e)),
    {
        let holders = self.entities::<T>();
        proof {
            self.lemma_order(T::kind());
            assert(holders@.to_set() =~= self.dom(T::kind()));
        }
        self.remove_all(holders);
    }

    /// Starts the store of kind `T` afresh: every component of that kind is
    /// dropped, and no other kind changes.
    pub fn register<T: Component>(&mut self)
        requires
            old(self).wf(),
        ensures
            final(self).issued() == old(self).issued(),
            final(self).wf(),
            T::stored(final(self)) == Map::<EntityId, T>::empty(),
            old(self).unchanged_except(final(self), T::kind()),
    {
        let holders = self.entities::<T>();
        let ghost w0 = *self;
        proof {
            w0.lemma_unchanged_refl(T::kind());
            w0.lemma_order(T::kind());
            T::lemma_stored(&w0);
        }
        let mut i: usize = 0;
        while i < holders.len()
            invariant
                self.wf(),
                0 <= i <= holders@.len(),
                holders@ == w0.order(T::kind()),
                forall|e: EntityId| #[trigger] holders@.contains(e) <==> T::stored(&w0).contains_key(e),
                w0.unchanged_except(self, T::kind()),
                self.issued() == w0.issued(),
                T::stored(self) == T::stored(&w0).remove_keys(holders@.subrange(0, i as int).to_set()),
            decreases holders@.len() - i,
        {
            let e = holders[i];
            let ghost before = *self;
            self.remove_component::<T>(&e);
            proof {
                World::lemma_unchanged_trans(&w0, &before, self, T::kind());
                let s0 = holders@.subrange(0, i as int);
                let s1 = holders@.subrange(0, i + 1);
                assert(s1 =~= s0.push(e));
                assert forall|x: EntityId| #[trigger] s1.to_set().contains(x) == s0.to_set().insert(e).contains(x) by {
                    if s0.contains(x) {
                        let j = choose|j: int| 0 <= j < s0.len() && s0[j] == x;
                        assert(s1[j] == x);
                    }
                    if x == e {
                        assert(s1[i as int] == x);
                    }
                    if s1.contains(x) && x != e {
                        let j = choose|j: int| 0 <= j < s1.len() && s1[j] == x;
                        assert(s0[j] == x);
                    }
                }
                assert(s1.to_set() =~= s0.to_set().insert(e));
                assert(T::stored(self) =~= T::stored(&w0).remove_keys(s1.to_set()));
            }
            i = i + 1;
        }
        proof {
            assert(holders@.subrange(0, i as int) =~= holders@);
            assert forall|e: EntityId| !#[trigger] T::stored(self).contains_key(e) by {
                if T::stored(&w0).contains_key(e) {
                    assert(holders@.to_set().contains(e));
                }
            }
            assert(T::stored(self) =~= Map::<EntityId, T>::empty());
        }
    }

    /// The components of kind `T`, in order of first insertion.
    pub fn components<T: Component>(&self) -> (r: Vec<&T>)
        requires
            self.wf(),
        ensures
            r@.len() == self.order(T::kind()).len(),
            forall|i: int| 0 <= i < r@.len() ==> *#[trigger] r@[i] == T::stored(self)[self.order(T::kind())[i]],
    {
        T::manager(self).components()
    }

    /// The entities holding a component of kind `T`, in order of first insertion.
    pub fn entities<T: Component>(&self) -> (r: Vec<EntityId>)
        requires
            self.wf(),
        ensures
            r@ == self.order(T::kind()),
    {
        T::manager(self).entities()
    }

    fn entities_of(&self, k: ComponentKind) -> (r: Vec<EntityId>)
        requires
            self.wf(),
        ensures
            r@ == self.order(k),
    {
        match k {
            ComponentKind::Collidable => self.collidables.entities(),
            ComponentKind::Collision => self.collisions.entities(),
            ComponentKind::Damage => self.damages.entities(),
            ComponentKind::Damaged => self.damageds.entities(),
            ComponentKind::Drawable => self.drawables.entities(),
            ComponentKind::Expirable => self.expirables.entities(),
            ComponentKind::Physicsable => self.physics.entities(),
            ComponentKind::PlayerControllable => self.player_controllables.entities(),
            ComponentKind::Tag => self.tags.entities(),
            ComponentKind::Transform => self.transforms.entities(),
            ComponentKind::Vulnerable => self.vulnerables.entities(),
        }
    }

    /// The entities holding a component of every kind in `kinds`, each once;
    /// none when `kinds` is empty.
    pub fn entities_with(&self, kinds: Vec<ComponentKind>) -> (r: Vec<EntityId>)
        requires
            self.wf(),
        ensures
            r@.no_duplicates(),
            r@.to_set() == self.holding_all(kinds@),
    {
        let mut sets: Vec<Vec<EntityId>> = Vec::new();
        let mut i: usize = 0;
        while i < kinds.len()
            invariant
                self.wf(),
                0 <= i <= kinds@.len(),
                sets@.len() == i,
                forall|j: int| 0 <= j < i ==> #[trigger] sets@[j]@ == self.order(kinds@[j]),
            decreases kinds@.len() - i,
        {
            sets.push(self.entities_of(kinds[i]));
            i = i + 1;
        }
        let ghost views = sets@.map_values(|v: Vec<EntityId>| v@);
        let r = intersections(sets);
        proof {
            let n = kinds@.len();
            reveal(Seq::filter);
            assert forall|e: EntityId| r@.contains(e) == self.holding_all(kinds@).contains(e) by {
                if n > 0 {
                    let last = views.last();
                    let p = |x: EntityId| forall|i: int| 0 <= i < views.len() - 1 ==> #[trigger] views[i].contains(x);
                    assert(r@ == last.filter(p));
                    self.lemma_order(kinds@[n - 1]);
                    if r@.contains(e) {
                        let j = choose|j: int| 0 <= j < r@.len() && r@[j] == e;
                        last.lemma_filter_pred(p, j);
                        last.lemma_filter_contains_rev(p, e);
                        assert(p(e));
                        assert forall|i: int| 0 <= i < n implies #[trigger] self.has(kinds@[i], e) by {
                            self.lemma_order(kinds@[i]);
                            assert(views[i] == self.order(kinds@[i]));
                            if i < n - 1 {
                                assert(views[i].contains(e));
                            } else {
                                assert(last.contains(e));
                            }
                        }
                    }
                    if self.holding_all(kinds@).contains(e) {
                        assert forall|i: int| 0 <= i < views.len() - 1 implies #[trigger] views[i].contains(e) by {
                            self.lemma_order(kinds@[i]);
                        }
                        assert(last.contains(e));
                        let j = choose|j: int| 0 <= j < last.len() && last[j] == e;
                        last.lemma_filter_contains(p, j);
                    }
                }
            }
            assert(r@.to_set() =~= self.holding_all(kinds@));
            if n > 0 {
                self.lemma_order(kinds@[n - 1]);
                crate::vec::lemma_filter_no_duplicates(views.last(), |x: EntityId| forall|i: int| 0 <= i < views.len() - 1 ==> #[trigger] views[i].contains(x));
            }
        }
        r
    }

    pub proof fn lemma_live_issued(&self)
        requires
            self.wf(),
        ensures
            forall|e: EntityId| #[trigger] self.is_live(e) ==> self.issued().contains(e),
    {
        assert forall|e: EntityId| #[trigger] self.is_live(e) implies self.issued().contains(e) by {
            let k = choose|k: ComponentKind| #[trigger] self.has(k, e);
            match k {
                ComponentKind::Collidable => { assert(self.collidables@.contains_key(e)); }
                ComponentKind::Collision => { assert(self.collisions@.contains_key(e)); }
                ComponentKind::Damage => { assert(self.damages@.contains_key(e)); }
                ComponentKind::Damaged => { assert(self.damageds@.contains_key(e)); }
                ComponentKind::Drawable => { assert(self.drawables@.contains_key(e)); }
                ComponentKind::Expirable => { assert(self.expirables@.contains_key(e)); }
                ComponentKind::Physicsable => { assert(self.physics@.contains_key(e)); }
                ComponentKind::PlayerControllable => { assert(self.player_controllables@.contains_key(e)); }
                ComponentKind::Tag => { assert(self.tags@.contains_key(e)); }
                ComponentKind::Transform => { assert(self.transforms@.contains_key(e)); }
                ComponentKind::Vulnerable => { assert(self.vulnerables@.contains_key(e)); }
            }
        }
    }

    /// A fresh identity: one this world has never handed out nor stored a
    /// component for. It is random, or on the unlikely clash the smallest
    /// free integer. Nothing is stored for it yet.
    pub fn create_entity(&mut self) -> (r: EntityId)
        requires
            old(self).wf(),
        ensures
            final(self).wf(),
            !old(self).issued().contains(r),
            !old(self).is_live(r),
            final(self).issued() == old(self).issued().insert(r),
            forall|k: ComponentKind| #[trigger] old(self).kind_unchanged(final(self), k),
    {
        proof {
            self.lemma_live_issued();
            self.lemma_kind_unchanged_refl();
        }
        let candidate = random_entity_id();
        let r = if !self.issued.contains(&candidate) {
            candidate
        } else {
            smallest_missing(&self.issued)
        };
        self.issued.insert(r);
        proof {
            assert forall|k: ComponentKind| #[trigger] old(self).kind_unchanged(self, k) by {
                assert(old(self).kind_unchanged(old(self), k));
            }
            assert(old(self).kind_unchanged(self, ComponentKind::Collidable));
        }
        r
    }
}

/// Adding a component and reading it back gives that component; once its
/// entity is removed, reading gives nothing.
pub proof fn lemma_store_round_trip<T: Component>(
    before: &World,
    added: &World,
    removed: &World,
    e: EntityId,
    c: T,
)
    requires
        T::stored(added) == T::stored(before).insert(e, c),
        forall|k: ComponentKind| #[trigger] added.kind_removed(removed, k, e),
    ensures
        T::stored(added).contains_key(e),
        T::stored(added)[e] == c,
        !T::stored(removed).contains_key(e),
{
    assert(added.kind_removed(removed, T::kind(), e));
    T::lemma_removed(added, removed, e);
}

/// Adding a component of kind `T` for `e1` leaves the components of every
/// other entity untouched, of kind `T` and of every other kind.
pub proof fn lemma_add_isolation<T: Component, U: Component>(
    before: &World,
    after: &World,
    e1: EntityId,
    e2: EntityId,
    c: T,
)
    requires
        e1 != e2,
        T::stored(after) == T::stored(before).insert(e1, c),
        before.unchanged_except(after, T::kind()),
    ensures
        T::stored(after).contains_key(e2) == T::stored(before).contains_key(e2),
        T::stored(before).contains_key(e2) ==> T::stored(after)[e2] == T::stored(before)[e2],
        U::stored(after).contains_key(e2) == U::stored(before).contains_key(e2),
        U::stored(before).contains_key(e2) ==> U::stored(after)[e2] == U::stored(before)[e2],
        U::kind() != T::kind() ==> U::stored(after) == U::stored(before),
{
    if U::kind() != T::kind() {
        assert(before.kind_unchanged(after, U::kind()));
        U::lemma_framed(before, after);
    } else {
        let only = set![e1];
        assert(T::stored(after).remove_keys(only) =~= T::stored(before).remove_keys(only));
        T::lemma_rebuilt_from_stored(before, after, only, only);
        U::lemma_rebuilt_stored(before, after, only, only);
        assert(U::stored(after).remove_keys(only).contains_key(e2) == U::stored(after).contains_key(e2));
        assert(U::stored(before).remove_keys(only).contains_key(e2) == U::stored(before).contains_key(e2));
        if U::stored(before).contains_key(e2) {
            assert(U::stored(after).remove_keys(only)[e2] == U::stored(after)[e2]);
            assert(U::stored(before).remove_keys(only)[e2] == U::stored(before)[e2]);
        }
    }
}

/// Removing the component of kind `T` of `e1` leaves the components of
/// every other entity untouched, of kind `T` and of every other kind.
pub proof fn lemma_remove_component_isolation<T: Component, U: Component>(
    before: &World,
    after: &World,
    e1: EntityId,
    e2: EntityId,
)
    requires
        e1 != e2,
        T::stored(after) == T::stored(before).remove(e1),
        before.unchanged_except(after, T::kind()),
    ensures
        T::stored(after).contains_key(e2) == T::stored(before).contains_key(e2),
        T::stored(before).contains_key(e2) ==> T::stored(after)[e2] == T::stored(before)[e2],
        U::stored(after).contains_key(e2) == U::stored(before).contains_key(e2),
        U::stored(before).contains_key(e2) ==> U::stored(after)[e2] == U::stored(before)[e2],
        U::kind() != T::kind() ==> U::stored(after) == U::stored(before),
{
    if U::kind() != T::kind() {
        assert(before.kind_unchanged(after, U::kind()));
        U::lemma_framed(before, after);
    } else {
        let only = set![e1];
        assert(T::stored(after).remove_keys(only) =~= T::stored(before).remove_keys(only));
        T::lemma_rebuilt_from_stored(before, after, only, only);
        U::lemma_rebuilt_stored(before, after, only, only);
        assert(U::stored(after).remove_keys(only).contains_key(e2) == U::stored(after).contains_key(e2));
        assert(U::stored(before).remove_keys(only).contains_key(e2) == U::stored(before).contains_key(e2));
        if U::stored(before).contains_key(e2) {
            assert(U::stored(after).remove_keys(only)[e2] == U::stored(after)[e2]);
            assert(U::stored(before).remove_keys(only)[e2] == U::stored(before)[e2]);
        }
    }
}

/// Removing entity `e1` leaves every component of any other entity as it was.
pub proof fn lemma_remove_isolation<U: Component>(
    before: &World,
    after: &World,
    e1: EntityId,
    e2: EntityId,
)
    requires
        e1 != e2,
        forall|k: ComponentKind| #[trigger] before.kind_removed(after, k, e1),
    ensures
        U::stored(after).contains_key(e2) == U::stored(before).contains_key(e2),
        U::stored(before).contains_key(e2) ==> U::stored(after)[e2] == U::stored(before)[e2],
{
    assert(before.kind_removed(after, U::kind(), e1));
    U::lemma_removed(before, after, e1);
}

/// Querying for two kinds gives exactly the entities listed for both.
pub proof fn lemma_query_two_kinds(w: &World, a: ComponentKind, b: ComponentKind)
    requires
        w.wf(),
    ensures
        w.holding_all(seq![a, b]) == w.order(a).to_set().intersect(w.order(b).to_set()),
{
    w.lemma_order(a);
    w.lemma_order(b);
    let ks = seq![a, b];
    assert forall|e: EntityId| #[trigger] w.holding_all(ks).contains(e) == w.order(a).to_set().intersect(w.order(b).to_set()).contains(e) by {
        if w.has(a, e) && w.has(b, e) {
            assert forall|i: int| 0 <= i < ks.len() implies #[trigger] w.has(ks[i], e) by {
                if i == 0 {} else {}
            }
        }
        if w.holding_all(ks).contains(e) {
            assert(w.has(ks[0], e));
            assert(w.has(ks[1], e));
        }
    }
    assert(w.holding_all(ks) =~= w.order(a).to_set().intersect(w.order(b).to_set()));
}

/// Removing two sets of keys one after the other removes their union.
pub proof fn lemma_remove_keys_twice<V>(m: Map<EntityId, V>, x: Set<EntityId>, y: Set<EntityId>)
    ensures
        m.remove_keys(x).remove_keys(y) == m.remove_keys(x.union(y)),
{
    assert(m.remove_keys(x).remove_keys(y) =~= m.remove_keys(x.union(y)));
}

/// Among `0..=s.len()` at least one value is missing from the finite set `s`.
proof fn lemma_missing_value(s: Set<EntityId>)
    requires
        s.finite(),
        s.len() < u128::MAX,
    ensures
        exists|k: int| 0 <= k <= s.len() && !#[trigger] s.contains(k as EntityId),
{
    if forall|k: int| 0 <= k <= s.len() ==> #[trigger] s.contains(k as EntityId) {
        let ints = s.map(|x: EntityId| x as int);
        vstd::set_lib::lemma_map_size_bound(s, ints, |x: EntityId| x as int);
        lemma_int_range(0, (s.len() + 1) as int);
        assert(set_int_range(0, (s.len() + 1) as int).subset_of(ints)) by {
            assert forall|k: int| set_int_range(0, (s.len() + 1) as int).contains(k) implies ints.contains(k) by {
                assert(s.contains(k as EntityId));
            }
        }
        lemma_len_subset(set_int_range(0, (s.len() + 1) as int), ints);
    }
}

/// The smallest value that `taken` does not hold.
fn smallest_missing(taken: &HashSet<EntityId>) -> (r: EntityId)
    requires
        taken@.finite(),
    ensures
        !taken@.contains(r),
{
    let n = taken.len();
    proof {
        lemma_missing_value(taken@);
    }
    let mut k: u128 = 0;
    while k <= n as u128
        invariant
            n == taken@.len(),
            taken@.finite(),
            0 <= k <= n + 1,
            forall|j: int| 0 <= j < k ==> #[trigger] taken@.contains(j as EntityId),
            exists|m: int| 0 <= m <= taken@.len() && !#[trigger] taken@.contains(m as EntityId),
        decreases n + 1 - k,
    {
        if !taken.contains(&k) {
            return k;
        }
        k = k + 1;
    }
    proof {
        let m = choose|m: int| 0 <= m <= taken@.len() && !#[trigger] taken@.contains(m as EntityId);
        assert(taken@.contains(m as EntityId));
    }
    0
}

} // verus!
