//! Plain network addresses: an IP address and a port, held as integers.

use vstd::prelude::*;

verus! {

/// An IP address, version 4 or 6, as the integer that its bytes spell in
/// network order.
#[derive(Clone, Copy, Debug, PartialEq, Eq, Hash, Structural)]
pub enum IpAddr {
    V4(u32),
    V6(u128),
}

/// An IP address together with a port.
#[derive(Clone, Copy, Debug, PartialEq, Eq, Hash, Structural)]
pub struct SocketAddr {
    pub ip: IpAddr,
    pub port: u16,
}

/// The loopback address `127.0.0.1`.
pub open spec fn loopback() -> IpAddr {
    IpAddr::V4(0x7f00_0001u32)
}

impl IpAddr {
    /// The IPv4 address `a.b.c.d`.
    pub open spec fn spec_from_octets(a: u8, b: u8, c: u8, d: u8) -> IpAddr {
        IpAddr::V4(((a as u32) << 24) | ((b as u32) << 16) | ((c as u32) << 8) | (d as u32))
    }

    /// Builds the IPv4 address `a.b.c.d`.
    pub fn from_octets(a: u8, b: u8, c: u8, d: u8) -> (ip: IpAddr)
        ensures
            ip == Self::spec_from_octets(a, b, c, d),
    {
        IpAddr::V4(((a as u32) << 24) | ((b as u32) << 16) | ((c as u32) << 8) | (d as u32))
    }

    /// The loopback address `127.0.0.1`.
    pub fn localhost() -> (ip: IpAddr)
        ensures
            ip == loopback(),
    {
        IpAddr::V4(0x7f00_0001u32)
    }
}

impl SocketAddr {
    /// Pairs an address with a port.
    pub fn new(ip: IpAddr, port: u16) -> (addr: SocketAddr)
        ensures
            addr.ip == ip,
            addr.port == port,
    {
        SocketAddr { ip, port }
    }
}

} // verus!
