//! Peer identity: the address that keys the registry and the IP that keys the
//! ban table.

use vstd::prelude::*;

verus! {

/// An IP address as a 128-bit number. IPv4 peers are stored in their
/// IPv4-mapped IPv6 form (`::ffff:a.b.c.d`), so one host has one key.
pub type Ip = u128;

/// The address of a peer: its IP and its port.
#[derive(Clone, Copy, Debug, PartialEq, Eq, Structural, Hash)]
pub struct Addr {
    pub ip: Ip,
    pub port: u16,
}

/// The key of the IPv4 address `a.b.c.d`: its IPv4-mapped IPv6 form,
/// `::ffff:a.b.c.d`.
pub open spec fn ipv4_key(a: u8, b: u8, c: u8, d: u8) -> int {
    0xffff * 0x1_0000_0000 + a * 0x100_0000 + b * 0x1_0000 + c * 0x100 + d
}

/// The key of the IPv4 address `a.b.c.d`.
pub fn ipv4(a: u8, b: u8, c: u8, d: u8) -> (r: Ip)
    ensures
        r == ipv4_key(a, b, c, d),
{
    0xffff_0000_0000u128 + (a as u128) * 0x100_0000 + (b as u128) * 0x1_0000 + (c as u128) * 0x100
        + (d as u128)
}

impl Addr {
    pub fn new(ip: Ip, port: u16) -> (r: Addr)
        ensures
            r.ip == ip,
            r.port == port,
    {
        Addr { ip, port }
    }
}

} // verus!
