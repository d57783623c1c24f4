//! The client's bookkeeping: configuration, input prediction and the
//! snapshots and entities it has been told about.
pub mod config_parser;
pub mod prediction;
pub mod snapshot_handler;
pub mod spawn_despawn_handler;
