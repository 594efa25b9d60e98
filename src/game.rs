use crate::entity::EntityId;
use crate::systems::collision::{collision_step, CollisionSystem};
use crate::systems::damage::{damage_step, DamageSystem};
use crate::systems::expiration::{expiration_step, ExpirationSystem};
use crate::systems::physics::{physics_step, PhysicsSystem};
use crate::systems::player_input::{input_step, KeyState, PlayerInputSystem};
use crate::systems::shape_manager::{shape_step, ShapeManager};
use crate::systems::ship_manager::{ship_step, ShipManager};
use crate::world::World;
use vstd::prelude::*;

verus! {

/// The state of a game: one world of entities.
pub struct GameState {
    pub world: World,
}

impl GameState {
    pub open spec fn wf(&self) -> bool {
        self.world.wf()
    }

    /// A game with no entities.
    pub fn new() -> (r: GameState)
        ensures
            r.wf(),
            forall|k, e| !r.world.has(k, e),
    {
        GameState { world: World::new() }
    }

    /// One tick: input, physics, expiration, collision detection, damage,
    /// ship respawn, then shape splitting, in that order, for a screen of
    /// `width` by `height` units at time `now`; each step acts on the world
    /// that the one before it left.
    pub fn update(&mut self, keys: KeyState, now: u64, width: i64, height: i64)
        requires
            old(self).wf(),
            width >= 0,
            height >= 0,
        ensures
            final(self).wf(),
            exists|w1: World, fired: Seq<(EntityId, EntityId)>|
                #[trigger] input_step(&old(self).world, &w1, keys, now, fired) && w1.wf() && exists|w2: World|
                    #[trigger] physics_step(&w1, &w2, width, height) && w2.wf() && exists|w3: World|
                        #[trigger] expiration_step(&w2, &w3, now) && w3.wf() && exists|w4: World|
                            #[trigger] collision_step(&w3, &w4) && w4.wf() && exists|w5: World|
                                #[trigger] damage_step(&w4, &w5) && w5.wf() && exists|
                                    w6: World,
                                    ship: Option<EntityId>,
                                |
                                    #[trigger] ship_step(&w5, &w6, ship) && w6.wf() && exists|
                                        shapes: Seq<(EntityId, EntityId)>,
                                    | #[trigger] shape_step(&w6, &final(self).world, shapes),
    {
        let fired = PlayerInputSystem::update(&mut self.world, keys, now);
        let ghost w1 = self.world;
        PhysicsSystem::update(&mut self.world, width, height);
        let ghost w2 = self.world;
        ExpirationSystem::update(&mut self.world, now);
        let ghost w3 = self.world;
        CollisionSystem::update(&mut self.world);
        let ghost w4 = self.world;
        DamageSystem::update(&mut self.world);
        let ghost w5 = self.world;
        let ship = ShipManager::update(&mut self.world);
        let ghost w6 = self.world;
        let shapes = ShapeManager::update(&mut self.world);
        proof {
            assert(shape_step(&w6, &self.world, shapes@));
            assert(ship_step(&w5, &w6, ship));
            assert(damage_step(&w4, &w5));
            assert(collision_step(&w3, &w4));
            assert(expiration_step(&w2, &w3, now));
            assert(physics_step(&w1, &w2, width, height));
            assert(input_step(&old(self).world, &w1, keys, now, fired@));
        }
    }
}

} // verus!
