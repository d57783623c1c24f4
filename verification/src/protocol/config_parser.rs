use vstd::prelude::*;

verus! {

/// The settings read from the configuration file.
pub struct Config {
    pub server_ip: String,
    pub tps: u32,
    pub port: u16,
}

/// The server's address.
pub fn server_ip(config: &Config) -> (r: String)
    ensures
        r@ == config.server_ip@,
{
    config.server_ip.clone()
}

/// The server's ticks per second.
pub fn tps(config: &Config) -> (r: u32)
    ensures
        r == config.tps,
{
    config.tps
}

/// The server's port.
pub fn port(config: &Config) -> (r: u16)
    ensures
        r == config.port,
{
    config.port
}

} // verus!
