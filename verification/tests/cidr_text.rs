use vqn::addr::IpAddr;
use vqn::conf::{AllowedIps, Cidr, CidrErrorKind};

fn chars(s: &str) -> Vec<char> {
    s.chars().collect()
}

fn ip(s: &str) -> IpAddr {
    match vqn::notation::parse_ipv4(&chars(s)) {
        Some(o) => IpAddr::V4(o),
        None => IpAddr::V6(vqn::notation::parse_ipv6(&chars(s)).unwrap()),
    }
}

fn v6(groups: [u16; 8]) -> IpAddr {
    let mut o = [0u8; 16];
    for (i, g) in groups.iter().enumerate() {
        o[2 * i] = (g >> 8) as u8;
        o[2 * i + 1] = (g & 0xff) as u8;
    }
    IpAddr::V6(o)
}

#[test]
fn conf_test_cidr_netmask() {
    assert_eq!(Cidr(ip("0.0.0.0"), 32).netmask(), (255, 255, 255, 255));
    assert_eq!(Cidr(ip("0.0.0.0"), 24).netmask(), (255, 255, 255, 0));
    assert_eq!(Cidr(ip("0.0.0.0"), 16).netmask(), (255, 255, 0, 0));
    assert_eq!(Cidr(ip("0.0.0.0"), 8).netmask(), (255, 0, 0, 0));
    assert_eq!(Cidr(ip("0.0.0.0"), 0).netmask(), (0, 0, 0, 0));
}

#[test]
fn netmask_of_every_prefix_length() {
    for p in 0..=32u32 {
        let mask: u32 = if p == 0 { 0 } else { u32::MAX << (32 - p) };
        let o = mask.to_be_bytes();
        assert_eq!(Cidr(ip("10.1.2.3"), p as u8).netmask(), (o[0], o[1], o[2], o[3]));
    }
    assert_eq!(Cidr(ip("10.1.2.3"), 25).netmask(), (255, 255, 255, 128));
    assert_eq!(Cidr(ip("10.1.2.3"), 12).netmask(), (255, 240, 0, 0));
    assert_eq!(Cidr(ip("10.1.2.3"), 31).netmask(), (255, 255, 255, 254));
    assert_eq!(Cidr(ip("10.1.2.3"), 33).netmask(), (255, 255, 255, 255));
    assert_eq!(Cidr(ip("::1"), 128).netmask(), (255, 255, 255, 255));
}

#[test]
fn cidr_ip_is_its_address() {
    assert_eq!(Cidr(ip("10.10.0.3"), 24).ip(), IpAddr::V4([10, 10, 0, 3]));
}

#[test]
fn parses_ipv4_cidr() {
    assert_eq!(Cidr::from_str("10.10.0.3/24").unwrap(), Cidr(IpAddr::V4([10, 10, 0, 3]), 24));
    assert_eq!(Cidr::from_str("0.0.0.0/0").unwrap(), Cidr(IpAddr::V4([0, 0, 0, 0]), 0));
    assert_eq!(Cidr::from_str("255.255.255.255/32").unwrap(), Cidr(IpAddr::V4([255; 4]), 32));
    assert_eq!(Cidr::from_str("10.0.0.0/+8").unwrap(), Cidr(IpAddr::V4([10, 0, 0, 0]), 8));
    assert_eq!(Cidr::from_str("10.0.0.0/008").unwrap(), Cidr(IpAddr::V4([10, 0, 0, 0]), 8));
}

#[test]
fn parses_ipv6_cidr() {
    assert_eq!(Cidr::from_str("::/0").unwrap(), Cidr(v6([0; 8]), 0));
    assert_eq!(Cidr::from_str("::1/128").unwrap(), Cidr(v6([0, 0, 0, 0, 0, 0, 0, 1]), 128));
    assert_eq!(
        Cidr::from_str("2001:db8::/32").unwrap(),
        Cidr(v6([0x2001, 0xdb8, 0, 0, 0, 0, 0, 0]), 32)
    );
    assert_eq!(
        Cidr::from_str("2001:DB8:0:0:8:800:200C:417A/64").unwrap(),
        Cidr(v6([0x2001, 0xdb8, 0, 0, 8, 0x800, 0x200c, 0x417a]), 64)
    );
    assert_eq!(
        Cidr::from_str("fe80::1:2/10").unwrap(),
        Cidr(v6([0xfe80, 0, 0, 0, 0, 0, 1, 2]), 10)
    );
    assert_eq!(
        Cidr::from_str("1:2:3:4:5:6:7::/112").unwrap(),
        Cidr(v6([1, 2, 3, 4, 5, 6, 7, 0]), 112)
    );
    assert_eq!(
        Cidr::from_str("::ffff:192.168.1.2/128").unwrap(),
        Cidr(v6([0, 0, 0, 0, 0, 0xffff, 0xc0a8, 0x0102]), 128)
    );
    assert_eq!(
        Cidr::from_str("1:2:3:4:5:6:1.2.3.4/96").unwrap(),
        Cidr(v6([1, 2, 3, 4, 5, 6, 0x0102, 0x0304]), 96)
    );
    assert_eq!(
        Cidr::from_str("0001:002:03:4::/64").unwrap(),
        Cidr(v6([1, 2, 3, 4, 0, 0, 0, 0]), 64)
    );
}

#[test]
fn rejects_text_without_a_slash() {
    let e = Cidr::from_str("10.10.0.3").unwrap_err();
    assert_eq!(e.kind(), CidrErrorKind::Format);
    assert_eq!(e.input(), "10.10.0.3");
    assert_eq!(e.to_string(), "Invalid CIDR format: 10.10.0.3");
    assert_eq!(Cidr::from_str("").unwrap_err().kind(), CidrErrorKind::Format);
}

#[test]
fn rejects_bad_addresses() {
    for bad in [
        "10.10.0/24",
        "10.10.0.256/24",
        "10.10.0.01/24",
        "10.10.0.3.4/24",
        "10.10..3/24",
        " 10.10.0.3/24",
        "ten/24",
        "/24",
        ":::/0",
        "1::2::3/64",
        "1:2:3:4:5:6:7/64",
        "1:2:3:4:5:6:7:8:9/64",
        "1:2:3:4:5:6:7:8::/64",
        "12345::/64",
        "g::/64",
        "1.2.3.4::/64",
        "::1.2.3.4:5/64",
        "1:2:3:4:5:6:7:1.2.3.4/64",
        "1:2:3:4:5:6::1.2.3.4/64",
        ":1:2:3:4:5:6:7/64",
        "fe80::1%eth0/64",
    ] {
        let e = Cidr::from_str(bad).unwrap_err();
        assert_eq!(e.kind(), CidrErrorKind::Address, "{}", bad);
        assert_eq!(e.to_string(), format!("Invalid IP address: {}", bad));
    }
}

#[test]
fn rejects_bad_prefix_lengths() {
    for bad in ["10.0.0.0/", "10.0.0.0/x", "10.0.0.0/-1", "10.0.0.0/256", "10.0.0.0/8 ", "10.0.0.0/8/9", "::/1e1", "10.0.0.0/+"] {
        let e = Cidr::from_str(bad).unwrap_err();
        assert_eq!(e.kind(), CidrErrorKind::Prefix, "{}", bad);
        assert_eq!(e.to_string(), format!("Invalid subnet mask: {}", bad));
    }
}

#[test]
fn rejects_prefix_lengths_beyond_the_address_width() {
    let e = Cidr::from_str("10.0.0.0/33").unwrap_err();
    assert_eq!(e.kind(), CidrErrorKind::PrefixRange(32));
    assert_eq!(e.to_string(), "Subnet mask must be in the range 0-32: 10.0.0.0/33");
    let e = Cidr::from_str("::/129").unwrap_err();
    assert_eq!(e.kind(), CidrErrorKind::PrefixRange(128));
    assert_eq!(e.to_string(), "Subnet mask must be in the range 0-128: ::/129");
    assert!(Cidr::from_str("::/33").is_ok());
    assert!(Cidr::from_str("10.0.0.0/32").is_ok());
}

#[test]
fn formats_ipv4_cidr() {
    assert_eq!(Cidr(IpAddr::V4([10, 10, 0, 3]), 24).to_string(), "10.10.0.3/24");
    assert_eq!(Cidr(IpAddr::V4([0, 0, 0, 0]), 0).to_string(), "0.0.0.0/0");
    assert_eq!(Cidr(IpAddr::V4([255, 255, 255, 255]), 32).to_string(), "255.255.255.255/32");
    assert_eq!(Cidr(IpAddr::V4([1, 20, 100, 9]), 7).to_string(), "1.20.100.9/7");
}

#[test]
fn formats_ipv6_cidr() {
    assert_eq!(Cidr(v6([0; 8]), 0).to_string(), "::/0");
    assert_eq!(Cidr(v6([0, 0, 0, 0, 0, 0, 0, 1]), 128).to_string(), "::1/128");
    assert_eq!(Cidr(v6([0x2001, 0xdb8, 0, 0, 0, 0, 0, 0]), 32).to_string(), "2001:db8::/32");
    assert_eq!(
        Cidr(v6([0x2001, 0xdb8, 0, 0, 8, 0x800, 0x200c, 0x417a]), 64).to_string(),
        "2001:db8::8:800:200c:417a/64"
    );
    assert_eq!(Cidr(v6([1, 2, 3, 4, 5, 6, 7, 8]), 64).to_string(), "1:2:3:4:5:6:7:8/64");
    assert_eq!(Cidr(v6([1, 0, 3, 4, 5, 6, 7, 8]), 64).to_string(), "1:0:3:4:5:6:7:8/64");
    assert_eq!(Cidr(v6([1, 0, 0, 4, 0, 0, 0, 8]), 64).to_string(), "1:0:0:4::8/64");
    assert_eq!(Cidr(v6([1, 0, 0, 4, 5, 0, 0, 8]), 64).to_string(), "1::4:5:0:0:8/64");
    assert_eq!(Cidr(v6([1, 2, 3, 4, 5, 6, 0, 0]), 96).to_string(), "1:2:3:4:5:6::/96");
    assert_eq!(Cidr(v6([0, 0, 3, 4, 5, 6, 7, 8]), 96).to_string(), "::3:4:5:6:7:8/96");
    assert_eq!(
        Cidr(v6([0, 0, 0, 0, 0, 0xffff, 0xc0a8, 0x0102]), 128).to_string(),
        "::ffff:192.168.1.2/128"
    );
    assert_eq!(Cidr(v6([0xabcd, 0xef01, 0x10, 0x100, 0x1000, 0xf, 0xff, 0xfff]), 1).to_string(), "abcd:ef01:10:100:1000:f:ff:fff/1");
}

#[test]
fn text_of_a_cidr_parses_back_to_it() {
    let mut seed: u64 = 0x9e37_79b9_7f4a_7c15;
    let mut next = || {
        seed ^= seed << 13;
        seed ^= seed >> 7;
        seed ^= seed << 17;
        seed
    };
    for i in 0..2000 {
        let c = if i % 2 == 0 {
            Cidr(IpAddr::V4((next() as u32).to_be_bytes()), (next() % 33) as u8)
        } else {
            let mut groups = [0u16; 8];
            for g in groups.iter_mut() {
                *g = match next() % 4 {
                    0 => 0,
                    1 => (next() % 16) as u16,
                    2 => 0xffff,
                    _ => next() as u16,
                };
            }
            Cidr(v6(groups), (next() % 129) as u8)
        };
        let text = c.to_string();
        assert_eq!(Cidr::from_str(&text).unwrap(), c, "{}", text);
    }
}

#[test]
fn parses_lists_of_cidrs() {
    let list = AllowedIps::from_str("0.0.0.0/0, ::/0").unwrap();
    assert_eq!(list.values, vec![Cidr(IpAddr::V4([0; 4]), 0), Cidr(v6([0; 8]), 0)]);
    assert_eq!(list.iter(), vec![(IpAddr::V4([0; 4]), 0), (v6([0; 8]), 0)]);
    let list = AllowedIps::from_str("10.10.0.1/32").unwrap();
    assert_eq!(list.values, vec![Cidr(IpAddr::V4([10, 10, 0, 1]), 32)]);
    let list = AllowedIps::from_str("  10.0.0.0/8 ,\t10.1.0.0/16,,  , 10.2.0.0/16\n").unwrap();
    assert_eq!(
        list.values,
        vec![
            Cidr(IpAddr::V4([10, 0, 0, 0]), 8),
            Cidr(IpAddr::V4([10, 1, 0, 0]), 16),
            Cidr(IpAddr::V4([10, 2, 0, 0]), 16)
        ]
    );
    assert!(AllowedIps::from_str("").unwrap().values.is_empty());
    assert!(AllowedIps::from_str(" , ,").unwrap().values.is_empty());
    assert_eq!(AllowedIps::from_str("\u{a0}10.0.0.0/8\u{3000}").unwrap().values.len(), 1);
}

#[test]
fn list_fails_on_its_first_bad_item() {
    let e = AllowedIps::from_str("10.0.0.0/8, 10.1.0.0, bad/7, 10.2.0.0/99").unwrap_err();
    assert_eq!(e.kind(), CidrErrorKind::Format);
    assert_eq!(e.input(), "10.1.0.0");
    assert_eq!(e.to_string(), "Invalid CIDR format: 10.1.0.0");
    let e = AllowedIps::from_str("10.0.0.0/8, 10.2.0.0/99 ").unwrap_err();
    assert_eq!(e.kind(), CidrErrorKind::PrefixRange(32));
    assert_eq!(e.input(), "10.2.0.0/99");
    let e = AllowedIps::from_str("10.0.0.0 / 8").unwrap_err();
    assert_eq!(e.kind(), CidrErrorKind::Address);
}

#[test]
fn formats_lists_of_cidrs() {
    let list = AllowedIps { values: vec![Cidr(IpAddr::V4([0; 4]), 0), Cidr(v6([0; 8]), 0)] };
    assert_eq!(list.to_string(), "0.0.0.0/0, ::/0");
    assert_eq!(AllowedIps { values: vec![] }.to_string(), "");
    assert_eq!(AllowedIps { values: vec![Cidr(IpAddr::V4([10, 0, 0, 0]), 8)] }.to_string(), "10.0.0.0/8");
}

#[test]
fn text_of_a_list_parses_back_to_it() {
    for text in ["10.0.0.0/8,10.1.0.0/16", " 10.10.0.2/32 ,fd00::/8 , ::ffff:1.2.3.4/128", ""] {
        let list = AllowedIps::from_str(text).unwrap();
        let again = AllowedIps::from_str(&list.to_string()).unwrap();
        assert_eq!(again.values, list.values);
    }
}
