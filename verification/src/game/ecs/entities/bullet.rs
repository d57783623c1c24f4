use crate::game::ecs::network_id::NetworkId;
use vstd::prelude::*;

verus! {

/// Marks an entity that is a bullet.
#[derive(Debug, Clone, Copy, PartialEq, Eq, Structural)]
pub struct Bullet;

/// The player who fired a bullet.
#[derive(Debug, Clone, Copy, PartialEq, Eq, Structural)]
pub struct LinkedPlayerId(pub NetworkId);

} // verus!
