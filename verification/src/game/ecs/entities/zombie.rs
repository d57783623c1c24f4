use vstd::prelude::*;

verus! {

/// Marks an entity that is a zombie.
#[derive(Debug, Clone, Copy, PartialEq, Eq, Structural)]
pub struct Zombie;

} // verus!
