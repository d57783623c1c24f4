//! Components, entities and systems of the game world.
pub mod components;
pub mod entities;
pub mod network_id;
pub mod systems;
