use vstd::prelude::*;

verus! {

/// What a client asks the server for.
#[derive(Debug, Clone, Copy, PartialEq, Eq, Structural)]
pub enum RequestKind {
    PlayerId,
    LevelData,
    Ping,
    Wave,
}

/// A client's request.
#[derive(Debug, Clone, Copy, PartialEq, Eq, Structural)]
pub struct PacketRequest {
    pub kind: RequestKind,
}

impl PacketRequest {
    pub fn new(kind: RequestKind) -> (r: Self)
        ensures
            r == (PacketRequest { kind }),
    {
        Self { kind }
    }
}

} // verus!
