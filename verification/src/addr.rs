//! Client addresses and byte-order conversion.
//!
//! A client is identified by its IPv4 address and port for the lifetime of
//! one connection; the pair keys the registry. The transport exchanges IPv4
//! addresses in network byte order, so the conversions live here too.

use vstd::prelude::*;

verus! {

/// An (IPv4 address, port) pair identifying one client connection.
/// The address is kept in host byte order.
#[derive(Clone, Copy, PartialEq, Eq, Structural, Debug)]
pub struct ClientAddress {
    pub ip: u32,
    pub port: u16,
}

/// The four bytes of a 32-bit value, reversed: what converting between host
/// order (little-endian) and network order (big-endian) does.
pub open spec fn byte_swapped(x: u32) -> u32 {
    ((x & 0xFF) << 24) | (((x >> 8) & 0xFF) << 16) | (((x >> 16) & 0xFF) << 8) | ((x >> 24) & 0xFF)
}

/// Convert a host-order IPv4 address to network byte order.
pub fn to_network_order(ip: u32) -> (r: u32)
    ensures
        r == byte_swapped(ip),
{
    ((ip & 0xFF) << 24) | (((ip >> 8) & 0xFF) << 16) | (((ip >> 16) & 0xFF) << 8) | ((ip >> 24) & 0xFF)
}

/// Convert a network-order IPv4 address back to host byte order.
pub fn from_network_order(ip: u32) -> (r: u32)
    ensures
        r == byte_swapped(ip),
{
    ((ip & 0xFF) << 24) | (((ip >> 8) & 0xFF) << 16) | (((ip >> 16) & 0xFF) << 8) | ((ip >> 24) & 0xFF)
}

/// Reversing the bytes twice gives back the starting value, so
/// `from_network_order` inverts `to_network_order` and vice versa.
pub proof fn lemma_byte_swap_involution(x: u32)
    ensures
        byte_swapped(byte_swapped(x)) == x,
{
    let y = byte_swapped(x);
    assert((((y & 0xFF) << 24) | (((y >> 8) & 0xFF) << 16) | (((y >> 16) & 0xFF) << 8) | ((y
        >> 24) & 0xFF)) == x) by (bit_vector)
        requires
            y == (((x & 0xFF) << 24) | (((x >> 8) & 0xFF) << 16) | (((x >> 16) & 0xFF) << 8) | ((x
                >> 24) & 0xFF)),
    ;
}

} // verus!
