use vstd::prelude::*;

verus! {

/// The client's settings.
pub struct Config {
    pub server_ip: String,
}

} // verus!
