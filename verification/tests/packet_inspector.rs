use vqn::addr::IpAddr;
use vqn::packet::ip_dst_address;

fn ipv4_packet(dst: [u8; 4], len: usize) -> Vec<u8> {
    let mut p = vec![0u8; len];
    p[0] = 0x45;
    if len >= 20 {
        p[16..20].copy_from_slice(&dst);
    }
    p
}

#[test]
fn empty_packet_has_no_destination() {
    assert_eq!(ip_dst_address(&[]), None);
}

#[test]
fn ipv4_destination_is_bytes_16_to_20() {
    let p = ipv4_packet([10, 10, 0, 2], 20);
    assert_eq!(ip_dst_address(&p), Some(IpAddr::V4([10, 10, 0, 2])));
    let p = ipv4_packet([192, 168, 1, 77], 1400);
    assert_eq!(ip_dst_address(&p), Some(IpAddr::V4([192, 168, 1, 77])));
}

#[test]
fn short_ipv4_packet_has_no_destination() {
    let p = ipv4_packet([10, 10, 0, 2], 19);
    assert_eq!(ip_dst_address(&p), None);
    assert_eq!(ip_dst_address(&[0x45]), None);
}

#[test]
fn ipv6_destination_is_bytes_24_to_40() {
    let mut p = vec![0u8; 40];
    p[0] = 0x60;
    let dst: [u8; 16] = [0x20, 0x01, 0x0d, 0xb8, 0, 0, 0, 0, 0, 0, 0, 0, 0, 0, 0, 1];
    p[24..40].copy_from_slice(&dst);
    assert_eq!(ip_dst_address(&p), Some(IpAddr::V6(dst)));
    p.truncate(39);
    assert_eq!(ip_dst_address(&p), None);
}

#[test]
fn other_versions_have_no_destination() {
    let mut p = vec![0u8; 64];
    p[0] = 0x50;
    assert_eq!(ip_dst_address(&p), None);
    p[0] = 0x04;
    assert_eq!(ip_dst_address(&p), None);
    p[0] = 0xf4;
    assert_eq!(ip_dst_address(&p), None);
}

#[test]
fn ipv4_version_with_long_packet_reads_ipv4_offsets() {
    let mut p = vec![7u8; 40];
    p[0] = 0x4f;
    assert_eq!(ip_dst_address(&p), Some(IpAddr::V4([7, 7, 7, 7])));
}

#[test]
fn ipv6_version_between_20_and_40_bytes_has_no_destination() {
    let mut p = vec![1u8; 30];
    p[0] = 0x60;
    assert_eq!(ip_dst_address(&p), None);
}

#[test]
fn malformed_header_fields_are_not_checked() {
    let mut p = vec![0xffu8; 20];
    p[0] = 0x40;
    assert_eq!(ip_dst_address(&p), Some(IpAddr::V4([255, 255, 255, 255])));
}
