use crate::protocol::network_id::ProtocolNetworkId;
use vstd::prelude::*;

verus! {

/// Tells a client which player is its own.
#[derive(Debug, Clone, Copy, PartialEq, Eq, Structural)]
pub struct PacketSetPlayerId {
    pub id: ProtocolNetworkId,
}

impl PacketSetPlayerId {
    pub fn new(id: ProtocolNetworkId) -> (r: Self)
        ensures
            r == (PacketSetPlayerId { id }),
    {
        Self { id }
    }
}

} // verus!
