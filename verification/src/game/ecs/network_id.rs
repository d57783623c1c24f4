use crate::protocol::network_id::ProtocolNetworkId;
use vstd::prelude::*;

verus! {

/// The identifier that an entity of the world shares with the network.
pub type NetworkId = ProtocolNetworkId;

} // verus!
