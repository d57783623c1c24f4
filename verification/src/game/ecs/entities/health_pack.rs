use vstd::prelude::*;

verus! {

/// Marks an entity that is a health pack that players pick up.
#[derive(Debug, Clone, Copy, PartialEq, Eq, Structural)]
pub struct HealthPack;

} // verus!
