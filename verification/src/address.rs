//! IP addresses as plain numbers.

use crate::wire;
use vstd::prelude::*;

verus! {

/// An IP address: the number that its octets spell in network byte order.
#[derive(Debug, Clone, Copy, PartialEq, Eq, Structural)]
pub enum IpAddr {
    /// A 32-bit address.
    V4(u32),
    /// A 128-bit address.
    V6(u128),
}

impl IpAddr {
    /// The address `a.b.c.d`.
    pub fn v4(a: u8, b: u8, c: u8, d: u8) -> (r: IpAddr)
        ensures
            r matches IpAddr::V4(n) && n == wire::big_endian(seq![a, b, c, d]),
    {
        proof {
            wire::lemma_four(seq![a, b, c, d]);
        }
        IpAddr::V4(a as u32 * 0x100_0000 + b as u32 * 0x1_0000 + c as u32 * 0x100 + d as u32)
    }
}

} // verus!
