use vqn::addr::IpAddr;
use vqn::conf::{
    initial_mtu, AllowedIps, Cidr, ClientPeer, Conf, Network, NoCurrentDir, ServerPeer, Tls,
    DATAGRAM_OVERHEAD, DEFAULT_FWMARK, DEFAULT_LISTEN_PORT, DEFAULT_MTU, DEFAULT_SERVER_PORT,
    IDLE_TIMEOUT_SECS, KEEP_ALIVE_SECS,
};
use vqn::firewall::{dev_down, dev_up, route_allowed_ip};

fn tls() -> Tls {
    Tls { key: "./key.pem".to_string(), cert: "./cert.pem".to_string(), ca_cert: "/etc/ca.pem".to_string() }
}

fn list(s: &str) -> AllowedIps {
    AllowedIps::from_str(s).unwrap()
}

fn server_conf(name: Option<&str>, fwmark: Option<u32>, dns: Option<&str>) -> Conf {
    Conf {
        network: Network::Server {
            name: name.map(|s| s.to_string()),
            address: Cidr::from_str("10.10.0.3/24").unwrap(),
            mtu: None,
            port: None,
            client: vec![
                ClientPeer { client_cert: "./client_cert.pem".to_string(), allowed_ips: list("10.10.0.1/32") },
                ClientPeer { client_cert: "./client_cert2.pem".to_string(), allowed_ips: list("10.10.0.2/32, fd00::2/128") },
            ],
            fwmark,
            dns: dns.map(|s| s.to_string()),
        },
        tls: tls(),
    }
}

fn client_conf() -> Conf {
    Conf {
        network: Network::Client {
            name: Some("vqn0".to_string()),
            address: Cidr::from_str("10.10.0.3/24").unwrap(),
            mtu: Some(1344),
            server: ServerPeer {
                host: Some("example.org".to_string()),
                port: None,
                server_name: None,
                allowed_ips: list("0.0.0.0/0, ::/0"),
            },
            fwmark: Some(51820),
            dns: Some("10.10.0.1".to_string()),
        },
        tls: tls(),
    }
}

fn words(c: &[&str]) -> Vec<String> {
    c.iter().map(|s| s.to_string()).collect()
}

#[test]
fn defaults() {
    assert_eq!(DEFAULT_LISTEN_PORT, 10086);
    assert_eq!(DEFAULT_MTU, 1434);
    assert_eq!(DEFAULT_FWMARK, 19988);
    assert_eq!(DEFAULT_SERVER_PORT, 443);
    assert_eq!(IDLE_TIMEOUT_SECS, 120);
    assert_eq!(KEEP_ALIVE_SECS, 15);
    assert_eq!(DATAGRAM_OVERHEAD, 60);
}

#[test]
fn route_command_of_one_network() {
    assert_eq!(
        route_allowed_ip("add", "tun0", Cidr::from_str("10.10.0.1/32").unwrap()),
        words(&["ip", "-4", "route", "add", "10.10.0.1/32", "dev", "tun0", "table", "19988"])
    );
    assert_eq!(
        route_allowed_ip("del", "vqn0", Cidr::from_str("::/0").unwrap()),
        words(&["ip", "-6", "route", "del", "::/0", "dev", "vqn0", "table", "19988"])
    );
}

#[test]
fn server_set_up_commands() {
    let plan = dev_up(&server_conf(None, None, None));
    assert_eq!(
        plan,
        vec![
            words(&["ip", "-4", "route", "add", "10.10.0.1/32", "dev", "tun0", "table", "19988"]),
            words(&["ip", "-4", "route", "add", "10.10.0.2/32", "dev", "tun0", "table", "19988"]),
            words(&["ip", "-6", "route", "add", "fd00::2/128", "dev", "tun0", "table", "19988"]),
            words(&["ip", "-4", "rule", "add", "not", "fwmark", "19988", "table", "19988"]),
            words(&["ip", "-4", "rule", "add", "table", "main", "suppress_prefixlength", "0"]),
            words(&["ip", "-6", "rule", "add", "not", "fwmark", "19988", "table", "19988"]),
            words(&["ip", "-6", "rule", "add", "table", "main", "suppress_prefixlength", "0"]),
        ]
    );
}

#[test]
fn client_set_up_commands_with_mark_name_and_dns() {
    let plan = dev_up(&client_conf());
    assert_eq!(
        plan,
        vec![
            words(&["ip", "-4", "route", "add", "0.0.0.0/0", "dev", "vqn0", "table", "19988"]),
            words(&["ip", "-6", "route", "add", "::/0", "dev", "vqn0", "table", "19988"]),
            words(&["ip", "-4", "rule", "add", "not", "fwmark", "51820", "table", "19988"]),
            words(&["ip", "-4", "rule", "add", "table", "main", "suppress_prefixlength", "0"]),
            words(&["ip", "-6", "rule", "add", "not", "fwmark", "51820", "table", "19988"]),
            words(&["ip", "-6", "rule", "add", "table", "main", "suppress_prefixlength", "0"]),
            words(&["resolvectl", "dns", "vqn0", "10.10.0.1"]),
        ]
    );
}

#[test]
fn take_down_commands() {
    assert_eq!(
        dev_down(&server_conf(Some("tun7"), Some(7), Some("1.1.1.1"))),
        vec![
            words(&["ip", "-4", "rule", "delete", "not", "fwmark", "7", "table", "19988"]),
            words(&["ip", "-4", "rule", "delete", "table", "main", "suppress_prefixlength", "0"]),
            words(&["ip", "-6", "rule", "delete", "not", "fwmark", "7", "table", "19988"]),
            words(&["ip", "-6", "rule", "delete", "table", "main", "suppress_prefixlength", "0"]),
            words(&["ip", "rule", "delete", "table", "19988"]),
        ]
    );
    assert_eq!(dev_down(&client_conf())[0][6], "51820");
    assert_eq!(dev_down(&server_conf(None, Some(0), None))[2][6], "0");
    assert_eq!(dev_down(&server_conf(None, Some(u32::MAX), None))[2][6], "4294967295");
}

#[test]
fn network_getters() {
    let s = server_conf(None, None, None).network;
    assert_eq!(s.address(), Cidr(IpAddr::V4([10, 10, 0, 3]), 24));
    assert_eq!(s.mtu(), None);
    assert_eq!(s.fwmark(), None);
    assert_eq!(s.name(), None);
    assert_eq!(s.dns(), None);
    assert_eq!(s.tun_name(), "tun0");
    assert_eq!(s.listen_port(), Some(10086));
    assert_eq!(s.effective_fwmark(), 19988);
    let c = client_conf().network;
    assert_eq!(c.address(), Cidr(IpAddr::V4([10, 10, 0, 3]), 24));
    assert_eq!(c.mtu(), Some(1344));
    assert_eq!(c.fwmark(), Some(51820));
    assert_eq!(c.name(), Some("vqn0"));
    assert_eq!(c.dns(), Some("10.10.0.1"));
    assert_eq!(c.tun_name(), "vqn0");
    assert_eq!(c.listen_port(), None);
    assert_eq!(c.effective_fwmark(), 51820);
}

#[test]
fn configured_listen_port_is_kept() {
    let mut conf = server_conf(None, None, None);
    if let Network::Server { port, .. } = &mut conf.network {
        *port = Some(4433);
    }
    assert_eq!(conf.network.listen_port(), Some(4433));
}

#[test]
fn tun_settings_by_configuration_and_by_default() {
    let s = server_conf(None, None, None).network.tun_settings();
    assert_eq!(s.name, "tun0");
    assert_eq!(s.address, IpAddr::V4([10, 10, 0, 3]));
    assert_eq!(s.netmask, (255, 255, 255, 0));
    assert_eq!(s.mtu, 1434);
    let c = client_conf().network.tun_settings();
    assert_eq!(c.name, "vqn0");
    assert_eq!(c.mtu, 1344);
}

#[test]
fn server_peer_port_and_name() {
    let mut peer = ServerPeer {
        host: Some("example.org".to_string()),
        port: None,
        server_name: None,
        allowed_ips: list(""),
    };
    assert_eq!(peer.remote_port(), 443);
    assert_eq!(peer.tls_name(), Some("example.org"));
    peer.port = Some(10086);
    peer.server_name = Some("vpn.internal".to_string());
    assert_eq!(peer.remote_port(), 10086);
    assert_eq!(peer.tls_name(), Some("vpn.internal"));
    peer.host = None;
    assert_eq!(peer.tls_name(), Some("vpn.internal"));
    peer.server_name = None;
    assert_eq!(peer.tls_name(), None);
}

#[test]
fn initial_mtu_adds_the_overhead() {
    assert_eq!(initial_mtu(1434), Some(1494));
    assert_eq!(initial_mtu(1344), Some(1404));
    assert_eq!(initial_mtu(0), Some(60));
    assert_eq!(initial_mtu(65475), Some(65535));
    assert_eq!(initial_mtu(65476), None);
    assert_eq!(initial_mtu(-1), None);
}

#[test]
fn relative_tls_paths_start_at_the_configuration_file() {
    let mut t = tls();
    assert_eq!(t.update_relative_paths("/etc/vqn/server.toml", None, true), Ok(()));
    assert_eq!(t.key, "/etc/vqn/./key.pem");
    assert_eq!(t.cert, "/etc/vqn/./cert.pem");
    assert_eq!(t.ca_cert, "/etc/ca.pem");
}

#[test]
fn relative_configuration_path_is_made_absolute_by_the_current_directory() {
    let mut t = Tls { key: "key.pem".to_string(), cert: "tls/cert.pem".to_string(), ca_cert: "ca.pem".to_string() };
    assert_eq!(t.update_relative_paths("conf/server.toml", Some("/home/vqn"), true), Ok(()));
    assert_eq!(t.key, "/home/vqn/conf/key.pem");
    assert_eq!(t.cert, "/home/vqn/conf/tls/cert.pem");
    assert_eq!(t.ca_cert, "/home/vqn/conf/ca.pem");
}

#[test]
fn a_directory_as_base_keeps_its_last_component() {
    let mut t = Tls { key: "key.pem".to_string(), cert: "/c.pem".to_string(), ca_cert: "ca.pem".to_string() };
    assert_eq!(t.update_relative_paths("/etc/vqn", None, false), Ok(()));
    assert_eq!(t.key, "/etc/vqn/key.pem");
    assert_eq!(t.cert, "/c.pem");
    assert_eq!(t.ca_cert, "/etc/vqn/ca.pem");
}

#[test]
fn missing_current_directory_fails_only_where_it_is_needed() {
    let mut t = tls();
    assert_eq!(t.update_relative_paths("server.toml", None, true), Err(NoCurrentDir));
    assert_eq!(t.key, "./key.pem");
    assert_eq!(t.cert, "./cert.pem");
    assert_eq!(t.ca_cert, "/etc/ca.pem");
    let mut all_absolute = Tls { key: "/k".to_string(), cert: "/c".to_string(), ca_cert: "/a".to_string() };
    assert_eq!(all_absolute.update_relative_paths("server.toml", None, true), Ok(()));
    assert_eq!(all_absolute.key, "/k");
    let mut last_relative = Tls { key: "/k".to_string(), cert: "/c".to_string(), ca_cert: "a".to_string() };
    assert_eq!(last_relative.update_relative_paths("server.toml", None, true), Err(NoCurrentDir));
    assert_eq!(last_relative.ca_cert, "a");
}
