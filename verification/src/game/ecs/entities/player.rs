use vstd::prelude::*;

verus! {

/// Marks an entity that is a player.
#[derive(Debug, Clone, Copy, PartialEq, Eq, Structural)]
pub struct Player;

} // verus!
