//! The kinds of entities of the world, as marker components.
pub mod bullet;
pub mod health_pack;
pub mod particle;
pub mod player;
pub mod tile;
pub mod zombie;
