use crate::protocol::network_id::ProtocolNetworkId;
use vstd::prelude::*;

verus! {

/// Which movement directions a player holds down.
#[derive(Debug, PartialEq, Eq, Structural, Clone, Copy)]
pub struct InputMap {
    pub up: bool,
    pub down: bool,
    pub left: bool,
    pub right: bool,
}

impl InputMap {
    /// No direction held.
    pub fn zero() -> (r: Self)
        ensures
            r == (InputMap { up: false, down: false, left: false, right: false }),
    {
        Self { up: false, down: false, left: false, right: false }
    }
}

/// A client's input, numbered so that the server can acknowledge it.
#[derive(Debug, PartialEq, Eq, Structural, Clone, Copy)]
pub struct PacketInput {
    pub client_id: ProtocolNetworkId,
    pub seq: u32,
    pub input_map: InputMap,
}

impl PacketInput {
    pub fn new(client_id: ProtocolNetworkId, seq: u32, input_map: InputMap) -> (r: Self)
        ensures
            r == (PacketInput { client_id, seq, input_map }),
    {
        Self { client_id, seq, input_map }
    }
}

} // verus!
