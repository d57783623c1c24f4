//! Game-wide resources.
pub mod audio_manager;
