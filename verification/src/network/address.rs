//! Socket addresses as plain values.

use vstd::prelude::*;

verus! {

/// An IP socket address: the fields of a version 4 or version 6 endpoint, with
/// the IP address as one big-endian number.
#[derive(Debug, Clone, Copy, PartialEq, Eq, Structural)]
#[allow(inconsistent_fields)]
pub enum SocketAddress {
    V4 { ip: u32, port: u16 },
    V6 { ip: u128, port: u16, flowinfo: u32, scope_id: u32 },
}

impl SocketAddress {
    /// The port of the endpoint.
    pub open spec fn spec_port(&self) -> u16 {
        match *self {
            SocketAddress::V4 { port, .. } => port,
            SocketAddress::V6 { port, .. } => port,
        }
    }

    /// The port of the endpoint.
    #[verifier::when_used_as_spec(spec_port)]
    pub fn port(&self) -> (p: u16)
        ensures
            p == self.spec_port(),
    {
        match self {
            SocketAddress::V4 { port, .. } => *port,
            SocketAddress::V6 { port, .. } => *port,
        }
    }

    /// The version 4 endpoint `a.b.c.d:port`.
    pub fn v4(a: u8, b: u8, c: u8, d: u8, port: u16) -> (addr: SocketAddress)
        ensures
            addr == (SocketAddress::V4 {
                ip: (a as u32 * 0x100_0000 + b as u32 * 0x1_0000 + c as u32 * 0x100 + d as u32) as u32,
                port,
            }),
    {
        let ip: u32 = (a as u32) * 0x100_0000 + (b as u32) * 0x1_0000 + (c as u32) * 0x100 + (d as u32);
        SocketAddress::V4 { ip, port }
    }
}

} // verus!
