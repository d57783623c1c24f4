//! The components that entities carry.
pub mod animation;
pub mod health;
pub mod moveable;
pub mod score;
