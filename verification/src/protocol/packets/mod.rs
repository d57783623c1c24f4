//! The payloads that travel in packets.
pub mod input;
pub mod request;
pub mod set_player_id;
pub mod spawn_entity;
pub mod version;
pub mod wave;
