//! Transport addresses of the peers of the relay.

use vstd::prelude::*;

verus! {

/// The network-layer part of an endpoint.
#[derive(Clone, Copy, Debug, PartialEq, Eq, Structural, Hash)]
pub enum Host {
    /// An IPv4 address, its four octets read as one big-endian number.
    V4(u32),
    /// An IPv6 address, its sixteen octets read as one big-endian number,
    /// with the flow information and the scope that came with it.
    V6 { address: u128, flowinfo: u32, scope_id: u32 },
}

/// A UDP transport address: where a datagram came from, or where one is
/// sent.  Two endpoints are the same when all their parts are equal.
#[derive(Clone, Copy, Debug, PartialEq, Eq, Structural, Hash)]
pub struct Endpoint {
    pub host: Host,
    pub port: u16,
}

/// The number that the octets `a.b.c.d` of an IPv4 address stand for.
pub open spec fn ipv4_number(a: u8, b: u8, c: u8, d: u8) -> int {
    a * 0x100_0000 + b * 0x1_0000 + c * 0x100 + d
}

impl Endpoint {
    /// The endpoint `a.b.c.d:port`.
    pub fn v4(a: u8, b: u8, c: u8, d: u8, port: u16) -> (e: Endpoint)
        ensures
            e.port == port,
            e.host == Host::V4(ipv4_number(a, b, c, d) as u32),
            ipv4_number(a, b, c, d) <= u32::MAX,
    {
        let ip: u32 = (a as u32) * 0x100_0000 + (b as u32) * 0x1_0000 + (c as u32) * 0x100 + (
        d as u32);
        Endpoint { host: Host::V4(ip), port }
    }

    /// The endpoint `[address]:port`, with no flow information and scope 0.
    pub fn v6(address: u128, port: u16) -> (e: Endpoint)
        ensures
            e.port == port,
            e.host == (Host::V6 { address, flowinfo: 0, scope_id: 0 }),
    {
        Endpoint { host: Host::V6 { address, flowinfo: 0, scope_id: 0 }, port }
    }
}

} // verus!
