use vstd::prelude::*;

verus! {

/// The protocol version a peer speaks.
pub struct PacketVersion {
    pub version_string: String,
}

impl PacketVersion {
    pub fn new(version_string: String) -> (r: Self)
        ensures
            r.version_string == version_string,
    {
        Self { version_string }
    }
}

} // verus!
