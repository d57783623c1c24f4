use vstd::prelude::*;

verus! {

/// The sound effects of the game.
#[derive(Debug, Clone, Copy, Hash, PartialEq, Eq, Structural)]
pub enum SoundKind {
    Explosion,
    Shoot,
    HealthPack,
    Hit,
}

} // verus!
