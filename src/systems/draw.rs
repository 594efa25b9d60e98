use crate::entity::EntityId;
use crate::world::{ComponentKind, World};
use vstd::prelude::*;

verus! {

/// Picks what a renderer draws each frame.
pub struct DrawSystem;

impl DrawSystem {
    /// The entities to draw: each entity with both a `Drawable` and a
    /// `Transform`, once.
    pub fn update(world: &World) -> (r: Vec<EntityId>)
        requires
            world.wf(),
        ensures
            r@.no_duplicates(),
            r@.to_set() == world.holding_all(seq![ComponentKind::Drawable, ComponentKind::Transform]),
    {
        world.entities_with(vec![ComponentKind::Drawable, ComponentKind::Transform])
    }
}

} // verus!
