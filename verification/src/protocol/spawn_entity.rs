use vstd::prelude::*;

verus! {

/// The kinds of entities of the first spawn message.
#[derive(Debug, Clone, Copy, PartialEq, Eq, Structural)]
pub enum EntityKind {
    Tile,
    Player,
}

} // verus!
