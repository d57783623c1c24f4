use vstd::prelude::*;

verus! {

/// Marks an entity that is a particle of an effect.
#[derive(Debug, Clone, Copy, PartialEq, Eq, Structural)]
pub struct Particle;

} // verus!
