use vstd::prelude::*;

verus! {

/// Marks an entity that is a wall tile of the level.
#[derive(Debug, Clone, Copy, PartialEq, Eq, Structural)]
pub struct Tile;

} // verus!
