use vstd::prelude::*;

verus! {

/// The number of the wave of zombies now running.
#[derive(Debug, Clone, Copy, PartialEq, Eq, Structural)]
pub struct PacketWave {
    pub number: u32,
}

impl PacketWave {
    pub fn new(number: u32) -> (r: Self)
        ensures
            r == (PacketWave { number }),
    {
        Self { number }
    }
}

} // verus!
