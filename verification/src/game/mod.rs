//! Game state and rules shared by client and server.
pub mod ecs;
pub mod game;
