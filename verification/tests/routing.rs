use vqn::addr::IpAddr;
use vqn::router::{same_identity, Router};

fn v4(a: u8, b: u8, c: u8, d: u8) -> IpAddr {
    IpAddr::V4([a, b, c, d])
}

fn chain(tag: u8) -> Vec<Vec<u8>> {
    vec![vec![0x30, 0x82, tag, 1, 2, 3], vec![0x30, 0x82, tag, 9]]
}

#[test]
fn identities_are_equal_byte_for_byte_and_in_order() {
    assert!(same_identity(&chain(1), &chain(1)));
    assert!(!same_identity(&chain(1), &chain(2)));
    let mut swapped = chain(1);
    swapped.swap(0, 1);
    assert!(!same_identity(&chain(1), &swapped));
    let mut shorter = chain(1);
    shorter.pop();
    assert!(!same_identity(&chain(1), &shorter));
    assert!(same_identity(&vec![], &vec![]));
    assert!(!same_identity(&vec![vec![1, 2]], &vec![vec![1, 2, 3]]));
}

#[test]
fn lookup_on_an_empty_router_finds_nothing() {
    let r = Router::new();
    assert_eq!(r.lookup(v4(10, 10, 0, 2)), None);
}

#[test]
fn registered_peer_is_not_routed_before_it_connects() {
    let mut r = Router::new();
    r.add_peer(chain(1), vec![(v4(10, 10, 0, 2), 32)]);
    assert_eq!(r.lookup(v4(10, 10, 0, 2)), None);
}

#[test]
fn connected_peer_serves_all_its_networks() {
    let mut r = Router::new();
    r.add_peer(chain(1), vec![(v4(10, 10, 0, 2), 32), (v4(172, 16, 0, 0), 12), (v4(192, 168, 5, 9), 24)]);
    let a = r.connect(Some(&chain(1)));
    assert_eq!(r.lookup(v4(10, 10, 0, 2)), Some(a));
    assert_eq!(r.lookup(v4(172, 31, 255, 255)), Some(a));
    assert_eq!(r.lookup(v4(192, 168, 5, 200)), Some(a));
    assert_eq!(r.lookup(v4(172, 32, 0, 0)), None);
    assert_eq!(r.lookup(v4(10, 10, 0, 3)), None);
}

#[test]
fn two_clients_without_overlap() {
    let mut r = Router::new();
    r.add_peer(chain(1), vec![(v4(10, 10, 0, 2), 32)]);
    r.add_peer(chain(2), vec![(v4(10, 10, 0, 3), 32)]);
    let a = r.connect(Some(&chain(1)));
    let b = r.connect(Some(&chain(2)));
    assert_ne!(a, b);
    for _ in 0..3 {
        assert_eq!(r.lookup(v4(10, 10, 0, 2)), Some(a));
        assert_eq!(r.lookup(v4(10, 10, 0, 3)), Some(b));
        assert_eq!(r.lookup(v4(10, 10, 0, 4)), None);
    }
}

#[test]
fn longest_prefix_wins_between_peers() {
    let mut r = Router::new();
    r.add_peer(chain(1), vec![(v4(10, 0, 0, 0), 8)]);
    r.add_peer(chain(2), vec![(v4(10, 1, 0, 0), 16)]);
    let b = r.connect(Some(&chain(2)));
    let a = r.connect(Some(&chain(1)));
    assert_eq!(r.lookup(v4(10, 1, 2, 3)), Some(b));
    assert_eq!(r.lookup(v4(10, 2, 0, 1)), Some(a));
    assert_eq!(r.lookup(v4(11, 0, 0, 1)), None);
}

#[test]
fn released_connection_is_no_longer_found() {
    let mut r = Router::new();
    r.add_peer(chain(1), vec![(v4(10, 10, 0, 2), 32)]);
    r.add_peer(chain(2), vec![(v4(10, 10, 0, 3), 32)]);
    let a = r.connect(Some(&chain(1)));
    let b = r.connect(Some(&chain(2)));
    assert_eq!(r.lookup(v4(10, 10, 0, 2)), Some(a));
    r.release(a);
    assert_eq!(r.lookup(v4(10, 10, 0, 2)), None);
    assert_eq!(r.lookup(v4(10, 10, 0, 3)), Some(b));
    r.release(a);
    r.release(12345);
    assert_eq!(r.lookup(v4(10, 10, 0, 3)), Some(b));
}

#[test]
fn stale_specific_route_hides_a_wider_live_one() {
    let mut r = Router::new();
    r.add_peer(chain(1), vec![(v4(10, 0, 0, 0), 8)]);
    r.add_peer(chain(2), vec![(v4(10, 1, 0, 0), 16)]);
    let a = r.connect(Some(&chain(1)));
    let b = r.connect(Some(&chain(2)));
    r.release(b);
    assert_eq!(r.lookup(v4(10, 1, 2, 3)), None);
    assert_eq!(r.lookup(v4(10, 2, 2, 3)), Some(a));
}

#[test]
fn reconnecting_peer_displaces_its_old_routes() {
    let mut r = Router::new();
    r.add_peer(chain(1), vec![(v4(10, 10, 0, 2), 32)]);
    let first = r.connect(Some(&chain(1)));
    r.release(first);
    assert_eq!(r.lookup(v4(10, 10, 0, 2)), None);
    let second = r.connect(Some(&chain(1)));
    assert_ne!(first, second);
    assert_eq!(r.lookup(v4(10, 10, 0, 2)), Some(second));
}

#[test]
fn overlapping_grants_go_to_the_peer_that_connected_last() {
    let mut r = Router::new();
    r.add_peer(chain(1), vec![(v4(10, 10, 0, 0), 24)]);
    r.add_peer(chain(2), vec![(v4(10, 10, 0, 77), 24)]);
    let a = r.connect(Some(&chain(1)));
    assert_eq!(r.lookup(v4(10, 10, 0, 5)), Some(a));
    let b = r.connect(Some(&chain(2)));
    assert_eq!(r.lookup(v4(10, 10, 0, 5)), Some(b));
    let a2 = r.connect(Some(&chain(1)));
    assert_eq!(r.lookup(v4(10, 10, 0, 5)), Some(a2));
}

#[test]
fn unknown_peer_gets_a_connection_and_no_route() {
    let mut r = Router::new();
    r.add_peer(chain(1), vec![(v4(10, 10, 0, 2), 32)]);
    let a = r.connect(Some(&chain(1)));
    let stranger = r.connect(Some(&chain(9)));
    let nameless = r.connect(None);
    assert_ne!(stranger, a);
    assert_ne!(nameless, stranger);
    assert_eq!(r.lookup(v4(10, 10, 0, 2)), Some(a));
    assert_eq!(r.lookup(v4(10, 10, 0, 9)), None);
}

#[test]
fn adding_a_peer_twice_merges_its_networks() {
    let mut r = Router::new();
    r.add_peer(chain(1), vec![(v4(10, 10, 0, 2), 32)]);
    r.add_peer(chain(1), vec![(v4(10, 10, 1, 0), 24), (v4(10, 10, 0, 2), 32)]);
    let a = r.connect(Some(&chain(1)));
    assert_eq!(r.lookup(v4(10, 10, 0, 2)), Some(a));
    assert_eq!(r.lookup(v4(10, 10, 1, 200)), Some(a));
}

#[test]
fn connection_numbers_count_up_from_zero() {
    let mut r = Router::new();
    assert_eq!(r.connect(None), 0);
    assert_eq!(r.connect(None), 1);
    r.release(0);
    assert_eq!(r.connect(None), 2);
}

#[test]
fn ipv6_networks_are_routed_too() {
    let mut r = Router::new();
    let mut net = [0u8; 16];
    net[0] = 0xfd;
    r.add_peer(chain(1), vec![(IpAddr::V6(net), 8), (v4(10, 0, 0, 0), 8)]);
    let a = r.connect(Some(&chain(1)));
    let mut host = [0u8; 16];
    host[0] = 0xfd;
    host[15] = 7;
    assert_eq!(r.lookup(IpAddr::V6(host)), Some(a));
    host[0] = 0xfe;
    assert_eq!(r.lookup(IpAddr::V6(host)), None);
}
