use vqn::addr::IpAddr;
use vqn::forward::{
    should_reconnect, Action, Client, ClientEvent, DropReason, Error, SendOutcome, Server,
    ServerEvent, CHANNEL_CAPACITY, SERVER_FRAME_SIZE,
};

fn chain(tag: u8) -> Vec<Vec<u8>> {
    vec![vec![tag, 1, 2, 3]]
}

fn packet_to(dst: [u8; 4]) -> Vec<u8> {
    let mut p = vec![0u8; 28];
    p[0] = 0x45;
    p[12..16].copy_from_slice(&[10, 10, 0, 1]);
    p[16..20].copy_from_slice(&dst);
    p
}

#[test]
fn constants_of_the_server_loop() {
    assert_eq!(CHANNEL_CAPACITY, 32);
    assert_eq!(SERVER_FRAME_SIZE, 1460);
}

#[test]
fn single_client_loopback() {
    let mut server = Server::new();
    server.add_client(chain(1), vec![(IpAddr::V4([10, 10, 0, 2]), 32)]);
    let a = server.connect(Some(&chain(1)));
    // From the client to the server's own address: no route, and what the
    // client sent comes in from the channel and goes to the TUN device.
    assert_eq!(
        server.step(ServerEvent::TunPacket(&packet_to([10, 10, 0, 1]))),
        Action::Drop(DropReason::NoRoute(IpAddr::V4([10, 10, 0, 1])))
    );
    assert_eq!(server.step(ServerEvent::PeerDatagram), Action::WriteTun);
    // From the server to the client.
    assert_eq!(server.step(ServerEvent::TunPacket(&packet_to([10, 10, 0, 2]))), Action::Send(a));
    assert_eq!(server.step(ServerEvent::SendDone(SendOutcome::Sent)), Action::Continue);
}

#[test]
fn server_drops_packets_without_a_destination() {
    let server = Server::new();
    assert_eq!(
        server.step(ServerEvent::TunPacket(&[])),
        Action::Drop(DropReason::UnknownPacket)
    );
    assert_eq!(
        server.step(ServerEvent::TunPacket(&[0x45, 0, 0])),
        Action::Drop(DropReason::UnknownPacket)
    );
    let mut other = packet_to([10, 10, 0, 2]);
    other[0] = 0x25;
    assert_eq!(server.step(ServerEvent::TunPacket(&other)), Action::Drop(DropReason::UnknownPacket));
}

#[test]
fn server_stops_on_tun_failure_and_on_lost_connection_only() {
    let server = Server::new();
    assert_eq!(
        server.step(ServerEvent::TunReadFailed("broken".to_string())),
        Action::Stop(Error::Tun("broken".to_string()))
    );
    assert_eq!(
        server.step(ServerEvent::TunWriteFailed("full".to_string())),
        Action::Stop(Error::Tun("full".to_string()))
    );
    assert_eq!(
        server.step(ServerEvent::SendDone(SendOutcome::ConnectionLost("timed out".to_string()))),
        Action::Stop(Error::Conn("timed out".to_string()))
    );
    assert_eq!(server.step(ServerEvent::SendDone(SendOutcome::Rejected)), Action::Continue);
}

#[test]
fn connection_loss_reclaims_the_route() {
    let mut server = Server::new();
    server.add_peer(chain(1), vec![(IpAddr::V4([10, 10, 0, 2]), 32)]);
    let a = server.connect(Some(&chain(1)));
    assert_eq!(server.step(ServerEvent::TunPacket(&packet_to([10, 10, 0, 2]))), Action::Send(a));
    server.release(a);
    assert_eq!(
        server.step(ServerEvent::TunPacket(&packet_to([10, 10, 0, 2]))),
        Action::Drop(DropReason::NoRoute(IpAddr::V4([10, 10, 0, 2])))
    );
}

#[test]
fn unknown_peer_is_heard_and_never_routed_to() {
    let mut server = Server::new();
    server.add_client(chain(1), vec![(IpAddr::V4([10, 10, 0, 2]), 32)]);
    let _stranger = server.connect(Some(&chain(7)));
    assert_eq!(server.step(ServerEvent::PeerDatagram), Action::WriteTun);
    assert_eq!(
        server.step(ServerEvent::TunPacket(&packet_to([10, 10, 0, 2]))),
        Action::Drop(DropReason::NoRoute(IpAddr::V4([10, 10, 0, 2])))
    );
}

#[test]
fn client_moves_packets_both_ways() {
    let client = Client::new(1434);
    assert_eq!(client.frame_size(), 1434);
    assert_eq!(client.step(ClientEvent::TunPacket), Action::SendToPeer);
    assert_eq!(client.step(ClientEvent::Datagram), Action::WriteTun);
    assert_eq!(client.step(ClientEvent::SendDone(SendOutcome::Sent)), Action::Continue);
    assert_eq!(client.step(ClientEvent::SendDone(SendOutcome::Rejected)), Action::Continue);
}

#[test]
fn client_tells_connection_errors_from_tun_errors() {
    let client = Client::new(1344);
    assert_eq!(
        client.step(ClientEvent::SendDone(SendOutcome::ConnectionLost("reset".to_string()))),
        Action::Stop(Error::Conn("reset".to_string()))
    );
    assert_eq!(
        client.step(ClientEvent::DatagramFailed("idle timeout".to_string())),
        Action::Stop(Error::Conn("idle timeout".to_string()))
    );
    assert_eq!(
        client.step(ClientEvent::TunReadFailed("gone".to_string())),
        Action::Stop(Error::Tun("gone".to_string()))
    );
    assert_eq!(
        client.step(ClientEvent::TunWriteFailed("gone".to_string())),
        Action::Stop(Error::Tun("gone".to_string()))
    );
}

#[test]
fn reconnect_after_connection_errors_only() {
    assert!(should_reconnect(&Err(Error::Conn("idle timeout".to_string()))));
    assert!(!should_reconnect(&Err(Error::Tun("gone".to_string()))));
    assert!(!should_reconnect(&Ok(())));
}
