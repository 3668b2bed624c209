//! The forwarding decisions of the server and of the client.
//!
//! The loops that move packets await the TUN device and the connections;
//! what they do with each thing that happens is decided here. A loop hands
//! an event to `step`, performs the action that comes back, and hands back
//! the event that follows from it.

use crate::addr::IpAddr;
use crate::packet::{has_destination, ip_dst_address, is_ipv4_packet, is_ipv6_packet};
use crate::router::{ConnId, PeerIdentity, Router};
use vstd::prelude::*;

verus! {

/// How many packets read from peers may wait for the TUN device.
pub const CHANNEL_CAPACITY: usize = 32;

/// The size that the server frames the TUN device with.
pub const SERVER_FRAME_SIZE: usize = 1460;

/// Why a forwarder stopped. Each holds the words of the failure.
#[derive(Debug, Clone, PartialEq, Eq)]
pub enum Error {
    /// Reading from or writing to the TUN device failed.
    Tun(String),
    /// The connection failed or was lost.
    Conn(String),
}

/// How an attempt to send a datagram ended.
#[derive(Debug, Clone, PartialEq, Eq)]
pub enum SendOutcome {
    /// The datagram was queued.
    Sent,
    /// The connection is lost; with the words of the failure.
    ConnectionLost(String),
    /// The datagram was refused for a reason that leaves the connection
    /// usable: it is too large, the peer takes no datagrams, or the like.
    Rejected,
}

/// Why a packet read from the TUN device was dropped.
#[derive(Debug, Clone, Copy, PartialEq, Eq)]
pub enum DropReason {
    /// The packet carries no destination address that could be read.
    UnknownPacket,
    /// No live route contains the destination.
    NoRoute(IpAddr),
}

/// What a forwarding loop does next.
#[derive(Debug, Clone, PartialEq, Eq)]
pub enum Action {
    /// Send the packet at hand as a datagram on this connection.
    Send(ConnId),
    /// Send the packet at hand as a datagram on the one connection.
    SendToPeer,
    /// Write the datagram at hand to the TUN device.
    WriteTun,
    /// Drop the packet at hand and go on.
    Drop(DropReason),
    /// Go on with the next event.
    Continue,
    /// Stop the loop with this error.
    Stop(Error),
}

/// What happened in the server's loop over the TUN device.
pub enum ServerEvent<'a> {
    /// A packet was read from the TUN device.
    TunPacket(&'a [u8]),
    /// Reading from the TUN device failed.
    TunReadFailed(String),
    /// A datagram that some peer sent came out of the channel.
    PeerDatagram,
    /// The send that the last action asked for ended.
    SendDone(SendOutcome),
    /// Writing to the TUN device failed.
    TunWriteFailed(String),
}

/// What happened in the client's loop.
pub enum ClientEvent {
    /// A packet was read from the TUN device.
    TunPacket,
    /// Reading from the TUN device failed.
    TunReadFailed(String),
    /// A datagram arrived on the connection.
    Datagram,
    /// Reading a datagram failed: the connection is gone.
    DatagramFailed(String),
    /// The send that the last action asked for ended.
    SendDone(SendOutcome),
    /// Writing to the TUN device failed.
    TunWriteFailed(String),
}

/// What follows a send: a lost connection stops the loop, anything else
/// lets it go on, the packet being dropped where it was refused.
pub open spec fn after_send(outcome: SendOutcome) -> Action {
    match outcome {
        SendOutcome::ConnectionLost(why) => Action::Stop(Error::Conn(why)),
        _ => Action::Continue,
    }
}

/// The routing hub: it knows the peers and routes packets read from the TUN
/// device to the connection that serves their destination.
pub struct Server {
    router: Router,
}

impl Server {
    /// The server's router.
    pub closed spec fn router(&self) -> Router {
        self.router
    }

    /// The router's invariant holds.
    pub open spec fn wf(&self) -> bool {
        self.router().wf()
    }

    /// A server that knows no peer.
    pub fn new() -> (r: Self)
        ensures
            r.wf(),
            r.router().peer_count() == 0,
            r.router().conn_count() == 0,
            r.router().routes() == Map::<crate::addr::Prefix, ConnId>::empty(),
    {
        Server { router: Router::new() }
    }

    /// Registers a client: its certificate chain and the networks it may
    /// use. As `Router::add_peer`.
    pub fn add_client(&mut self, cert_chain: PeerIdentity, allowed_ips: Vec<(IpAddr, u8)>)
        requires
            old(self).wf(),
            forall|i: int|
                0 <= i < allowed_ips.len() ==> (#[trigger] allowed_ips[i]).1
                    <= allowed_ips[i].0.width(),
        ensures
            final(self).wf(),
            crate::router::peer_added(
                old(self).router(),
                cert_chain.deep_view(),
                allowed_ips@,
                final(self).router(),
            ),
    {
        self.router.add_peer(cert_chain, allowed_ips);
    }

    /// Registers a peer. Another name of `add_client`.
    pub fn add_peer(&mut self, cert_chain: PeerIdentity, allowed_ips: Vec<(IpAddr, u8)>)
        requires
            old(self).wf(),
            forall|i: int|
                0 <= i < allowed_ips.len() ==> (#[trigger] allowed_ips[i]).1
                    <= allowed_ips[i].0.width(),
        ensures
            final(self).wf(),
            crate::router::peer_added(
                old(self).router(),
                cert_chain.deep_view(),
                allowed_ips@,
                final(self).router(),
            ),
    {
        self.add_client(cert_chain, allowed_ips);
    }

    /// Takes in a connection whose handshake is complete. As
    /// `Router::connect`.
    pub fn connect(&mut self, identity: Option<&PeerIdentity>) -> (id: ConnId)
        requires
            old(self).wf(),
        ensures
            final(self).wf(),
            crate::router::connected(
                old(self).router(),
                crate::router::identity_view(identity),
                final(self).router(),
                id,
            ),
    {
        self.router.connect(identity)
    }

    /// Notes that a connection is gone. As `Router::release`.
    pub fn release(&mut self, id: ConnId)
        requires
            old(self).wf(),
        ensures
            final(self).wf(),
            crate::router::released(old(self).router(), id, final(self).router()),
    {
        self.router.release(id)
    }

    /// What the server does with a packet read from the TUN device: it goes
    /// to the live connection that serves its destination, and is dropped
    /// where it has no destination or no such connection.
    pub open spec fn dispatch(&self, packet: Seq<u8>, action: Action) -> bool {
        if !is_ipv4_packet(packet) && !is_ipv6_packet(packet) {
            action == Action::Drop(DropReason::UnknownPacket)
        } else {
            exists|dst: IpAddr|
                has_destination(packet, dst) && action == match self.router().route_of(dst) {
                    Some(id) => Action::Send(id),
                    None => Action::Drop(DropReason::NoRoute(dst)),
                }
        }
    }

    /// Decides what the loop over the TUN device does next.
    ///
    /// A packet from the TUN device is routed by its destination. A
    /// datagram from a peer is written to the TUN device. A failure of the
    /// TUN device or a lost connection stops the loop; a datagram that was
    /// refused is dropped and the loop goes on.
    pub fn step(&self, event: ServerEvent<'_>) -> (action: Action)
        requires
            self.wf(),
        ensures
            match event {
                ServerEvent::TunPacket(packet) => self.dispatch(packet@, action),
                ServerEvent::TunReadFailed(why) => action == Action::Stop(Error::Tun(why)),
                ServerEvent::PeerDatagram => action == Action::WriteTun,
                ServerEvent::SendDone(outcome) => action == after_send(outcome),
                ServerEvent::TunWriteFailed(why) => action == Action::Stop(Error::Tun(why)),
            },
    {
        match event {
            ServerEvent::TunPacket(packet) => {
                match ip_dst_address(packet) {
                    Some(dst) => match self.router.lookup(dst) {
                        Some(id) => Action::Send(id),
                        None => Action::Drop(DropReason::NoRoute(dst)),
                    },
                    None => Action::Drop(DropReason::UnknownPacket),
                }
            },
            ServerEvent::TunReadFailed(why) => Action::Stop(Error::Tun(why)),
            ServerEvent::PeerDatagram => Action::WriteTun,
            ServerEvent::SendDone(outcome) => send_done(outcome),
            ServerEvent::TunWriteFailed(why) => Action::Stop(Error::Tun(why)),
        }
    }
}

/// What follows a send.
fn send_done(outcome: SendOutcome) -> (action: Action)
    ensures
        action == after_send(outcome),
{
    match outcome {
        SendOutcome::ConnectionLost(why) => Action::Stop(Error::Conn(why)),
        _ => Action::Continue,
    }
}

/// The client's forwarder: one TUN device, one connection.
pub struct Client {
    mtu: usize,
}

impl Client {
    /// The size that the client frames the TUN device with.
    pub closed spec fn mtu(&self) -> usize {
        self.mtu
    }

    /// A client that frames the TUN device by its MTU.
    pub fn new(mtu: usize) -> (r: Self)
        ensures
            r.mtu() == mtu,
    {
        Client { mtu }
    }

    /// The size that the client frames the TUN device with.
    pub fn frame_size(&self) -> (r: usize)
        ensures
            r == self.mtu(),
    {
        self.mtu
    }

    /// Decides what the client's loop does next.
    ///
    /// A packet from the TUN device goes to the peer, a datagram from the
    /// peer goes to the TUN device. A failure of the TUN device stops the
    /// loop with a TUN error; a lost connection or a failed read of a
    /// datagram stops it with a connection error.
    pub fn step(&self, event: ClientEvent) -> (action: Action)
        ensures
            action == match event {
                ClientEvent::TunPacket => Action::SendToPeer,
                ClientEvent::TunReadFailed(why) => Action::Stop(Error::Tun(why)),
                ClientEvent::Datagram => Action::WriteTun,
                ClientEvent::DatagramFailed(why) => Action::Stop(Error::Conn(why)),
                ClientEvent::SendDone(outcome) => after_send(outcome),
                ClientEvent::TunWriteFailed(why) => Action::Stop(Error::Tun(why)),
            },
    {
        match event {
            ClientEvent::TunPacket => Action::SendToPeer,
            ClientEvent::TunReadFailed(why) => Action::Stop(Error::Tun(why)),
            ClientEvent::Datagram => Action::WriteTun,
            ClientEvent::DatagramFailed(why) => Action::Stop(Error::Conn(why)),
            ClientEvent::SendDone(outcome) => send_done(outcome),
            ClientEvent::TunWriteFailed(why) => Action::Stop(Error::Tun(why)),
        }
    }
}

/// Whether the caller dials again after a run of the client ended: it does
/// after a connection error, and only then.
pub fn should_reconnect(ended: &Result<(), Error>) -> (r: bool)
    ensures
        r == (ended matches Err(Error::Conn(_))),
{
    match ended {
        Err(Error::Conn(_)) => true,
        _ => false,
    }
}

} // verus!
