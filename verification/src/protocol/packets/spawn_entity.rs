use vstd::prelude::*;

verus! {

/// The kinds of entities that the server tells clients about.
#[derive(Debug, Clone, Copy, PartialEq, Eq, Structural)]
pub enum EntityKind {
    Tile,
    Player,
    Zombie,
    Bullet,
    HealthPack,
}

} // verus!
