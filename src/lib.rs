//! An entity-component store and the per-tick systems of a small arcade
//! shooter: collision detection, damage resolution, lifecycle rules and
//! physics integration, over fixed-point geometry.
use vstd::prelude::*;

pub mod components;
pub mod entity;
pub mod game;
pub mod geometry;
pub mod iter;
pub mod systems;
pub mod vec;
pub mod world;

verus! {

} // verus!
