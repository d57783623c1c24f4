//! The network protocol shared by client and server.
pub mod config_parser;
pub mod network_id;
pub mod packet;
pub mod packets;
pub mod ping;
pub mod spawn_entity;
