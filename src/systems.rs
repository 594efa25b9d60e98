//! The systems run once per tick, in a fixed order, over a `World`.
pub mod collision;
pub mod damage;
pub mod draw;
pub mod expiration;
pub mod physics;
pub mod player_input;
pub mod shape_manager;
pub mod ship_manager;
