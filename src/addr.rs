use vstd::prelude::*;

verus! {

/// The IP address of a simulated node, as a big-endian integer.
#[derive(Clone, Copy, Debug, PartialEq, Eq, Structural, Hash)]
pub enum Ip {
    V4(u32),
    V6(u128),
}

/// The network address of a simulated node: an IP address and a port.
#[derive(Clone, Copy, Debug, PartialEq, Eq, Structural, Hash)]
pub struct Addr {
    pub ip: Ip,
    pub port: u16,
}

impl Addr {
    /// The address with IPv4 address `ip` and port `port`.
    pub fn new(ip: u32, port: u16) -> (r: Addr)
        ensures
            r.ip == Ip::V4(ip),
            r.port == port,
    {
        Addr { ip: Ip::V4(ip), port }
    }

    /// The address with IPv6 address `ip` and port `port`.
    pub fn new_v6(ip: u128, port: u16) -> (r: Addr)
        ensures
            r.ip == Ip::V6(ip),
            r.port == port,
    {
        Addr { ip: Ip::V6(ip), port }
    }
}

} // verus!
