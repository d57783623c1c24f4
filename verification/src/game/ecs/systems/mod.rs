//! The systems that advance the game world.
pub mod collision;
pub mod healthpack_update;
pub mod input;
pub mod pathfinding;
pub mod zombie_movement;
