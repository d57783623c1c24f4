use vstd::prelude::*;

verus! {

/// A ping stamped with the sender's clock.
#[derive(Debug, Clone, Copy, PartialEq, Eq, Structural)]
pub struct PacketPing {
    pub now: u64,
}

impl PacketPing {
    /// A ping stamped with `now`, the sender's time in milliseconds since the
    /// Unix epoch. Reading the clock is left to the caller.
    pub fn new(now: u64) -> (r: Self)
        ensures
            r == (PacketPing { now }),
    {
        Self { now }
    }
}

} // verus!
