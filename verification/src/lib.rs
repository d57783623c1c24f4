//! Core logic of a multiplayer arena zombie shooter: the wire protocol
//! (packet framing, packet payloads, configuration), the game rules that
//! work on plain values (collision meshes, health, animation frames,
//! grid path finding) and the client's input prediction bookkeeping.
pub mod protocol;
pub mod game;
pub mod client;
