use vstd::prelude::*;

verus! {

/// The identifier under which an entity is known on the network.
#[derive(Debug, Default, PartialEq, Clone, Copy, Eq, Structural, PartialOrd, Ord, Hash)]
pub struct ProtocolNetworkId(pub u32);

} // verus!
