//! Plain-value socket addresses.
//!
//! The demultiplexer identifies a session by the source address of its peer.
//! Addresses are held as plain integers so that contracts can speak about
//! them directly; conversion from and to the host's native address types is
//! the caller's concern.

use vstd::prelude::*;

verus! {

/// An IP address, either a 32-bit v4 address or a 128-bit v6 address,
/// in host byte order.
#[derive(Clone, Copy, PartialEq, Eq, Structural, Debug, Hash)]
pub enum IpAddr {
    V4(u32),
    V6(u128),
}

/// A socket address: an IP address together with a port.
#[derive(Clone, Copy, PartialEq, Eq, Structural, Debug, Hash)]
pub struct SockAddr {
    pub ip: IpAddr,
    pub port: u16,
}

impl SockAddr {
    /// Build an address from its parts.
    pub fn new(ip: IpAddr, port: u16) -> (r: SockAddr)
        ensures
            r.ip == ip,
            r.port == port,
    {
        SockAddr { ip, port }
    }

    /// Build a v4 address from the four dotted-quad octets and a port.
    pub fn v4(a: u8, b: u8, c: u8, d: u8, port: u16) -> (r: SockAddr)
        ensures
            r.ip == IpAddr::V4((a * 0x1000000 + b * 0x10000 + c * 0x100 + d) as u32),
            r.port == port,
    {
        let ip: u32 = (a as u32) * 0x1000000 + (b as u32) * 0x10000 + (c as u32) * 0x100 + (d as u32);
        SockAddr { ip: IpAddr::V4(ip), port }
    }

    /// Whether the address belongs to the v4 family; the family of a bound
    /// socket is derived from its bind address.
    pub fn is_ipv4(&self) -> (r: bool)
        ensures
            r == (self.ip matches IpAddr::V4(_)),
    {
        match self.ip {
            IpAddr::V4(_) => true,
            IpAddr::V6(_) => false,
        }
    }
}

} // verus!
