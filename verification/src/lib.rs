//! Data-plane core of a point-to-multipoint VPN that tunnels IP datagrams
//! over QUIC: packet inspection, longest-prefix routing, peer binding and the
//! forwarding decisions, with their contracts.

pub mod addr;
pub mod allowed_ips;
pub mod codec;
pub mod conf;
pub mod firewall;
pub mod forward;
pub mod notation;
pub mod packet;
pub mod pem;
pub mod router;
pub mod text;
