//! The packet inspector: finds the destination address in an IP header.

use crate::addr::IpAddr;
use vstd::prelude::*;

verus! {

/// Length of an IPv4 header without options.
pub const IPV4_MIN_HEADER_SIZE: usize = 20;

/// Offset of the destination address in an IPv4 header.
pub const IPV4_DST_IP_OFF: usize = 16;

/// Length of the fixed IPv6 header.
pub const IPV6_MIN_HEADER_SIZE: usize = 40;

/// Offset of the destination address in an IPv6 header.
pub const IPV6_DST_IP_OFF: usize = 24;

/// The IP version that a packet announces: the high nibble of its first octet.
pub open spec fn version_nibble(packet: Seq<u8>) -> int
    recommends
        packet.len() > 0,
{
    packet[0] as int / 16
}

/// Whether the packet announces IPv4 and is long enough for an IPv4 header.
pub open spec fn is_ipv4_packet(packet: Seq<u8>) -> bool {
    packet.len() >= 20 && version_nibble(packet) == 4
}

/// Whether the packet announces IPv6 and is long enough for an IPv6 header.
pub open spec fn is_ipv6_packet(packet: Seq<u8>) -> bool {
    packet.len() >= 40 && version_nibble(packet) == 6
}

/// Whether `dst` is the destination address that the packet's header carries.
pub open spec fn has_destination(packet: Seq<u8>, dst: IpAddr) -> bool {
    if is_ipv4_packet(packet) {
        !dst.v6() && dst.octets() == packet.subrange(16, 20)
    } else {
        is_ipv6_packet(packet) && dst.v6() && dst.octets() == packet.subrange(24, 40)
    }
}

/// Reads the destination address out of an IP packet.
///
/// An IPv4 packet of at least 20 octets yields octets 16 to 19, an IPv6
/// packet of at least 40 octets yields octets 24 to 39, and anything else
/// yields nothing. Checksums, options and length fields are not looked at.
pub fn ip_dst_address(packet: &[u8]) -> (r: Option<IpAddr>)
    ensures
        match r {
            Some(dst) => has_destination(packet@, dst),
            None => !is_ipv4_packet(packet@) && !is_ipv6_packet(packet@),
        },
{
    if packet.len() == 0 {
        return None;
    }
    let first: u8 = packet[0];
    let version: u8 = first >> 4;
    assert(version == first / 16) by (bit_vector)
        requires
            version == first >> 4,
    ;
    if version == 4 && packet.len() >= IPV4_MIN_HEADER_SIZE {
        let a: [u8; 4] = [packet[16], packet[17], packet[18], packet[19]];
        assert(a@ =~= packet@.subrange(16, 20));
        Some(IpAddr::V4(a))
    } else if version == 6 && packet.len() >= IPV6_MIN_HEADER_SIZE {
        let a: [u8; 16] = [
            packet[24],
            packet[25],
            packet[26],
            packet[27],
            packet[28],
            packet[29],
            packet[30],
            packet[31],
            packet[32],
            packet[33],
            packet[34],
            packet[35],
            packet[36],
            packet[37],
            packet[38],
            packet[39],
        ];
        assert(a@ =~= packet@.subrange(24, 40));
        Some(IpAddr::V6(a))
    } else {
        None
    }
}

} // verus!
