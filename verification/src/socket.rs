//! Transport addresses as plain values, and well-known endpoints.

use vstd::prelude::*;

verus! {

/// The port that lets the system pick one.
pub const ANY_PORT: u16 = 0;

/// The IPv4 loopback host.
pub const LOCALHOST: u32 = 0x7F00_0001;

/// The IPv4 wildcard host.
pub const UNSPECIFIED: u32 = 0;

/// A datagram address as plain values: an IPv4 host and a port.
#[derive(Debug, Clone, Copy, PartialEq, Eq, Structural)]
pub struct NetworkAddr {
    pub host: u32,
    pub port: u16,
}

/// Well-known addresses an application binds or connects to.
pub struct Endpoint;

impl Endpoint {
    /// Any remote host, on the given port.
    pub fn remote_port(port: u16) -> (r: NetworkAddr)
        ensures
            r == (NetworkAddr { host: UNSPECIFIED, port }),
    {
        NetworkAddr { host: UNSPECIFIED, port }
    }

    /// Any remote host and any port.
    pub fn remote_any() -> (r: NetworkAddr)
        ensures
            r == (NetworkAddr { host: UNSPECIFIED, port: ANY_PORT }),
    {
        Self::remote_port(ANY_PORT)
    }

    /// The loopback host, on the given port.
    pub fn local_port(port: u16) -> (r: NetworkAddr)
        ensures
            r == (NetworkAddr { host: LOCALHOST, port }),
    {
        NetworkAddr { host: LOCALHOST, port }
    }

    /// The loopback host, on any port.
    pub fn local_any() -> (r: NetworkAddr)
        ensures
            r == (NetworkAddr { host: LOCALHOST, port: ANY_PORT }),
    {
        Self::local_port(ANY_PORT)
    }
}

/// A frame ready to leave, with the address it is bound for.
pub struct Datagram {
    pub dest: NetworkAddr,
    pub data: Vec<u8>,
}

} // verus!
