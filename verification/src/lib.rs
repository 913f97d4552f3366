//! A best-effort datagram transport for real-time state exchange between one
//! server and its clients: a message codec, an outbound queue, a registry of
//! live peers with idle eviction, a heartbeat timer, and the per-tick steps
//! that tie them together.
//!
//! Messages may be lost, doubled or reordered on the way; nothing here
//! retransmits, orders or authenticates. The library does no I/O of its
//! own: the caller owns the socket, hands in what it received and sends
//! what it is handed.

pub mod address;
pub mod codec;
pub mod connections;
pub mod decimal;
pub mod events;
pub mod message;
pub mod systems;
pub mod timer;
pub mod transport;

pub use self::address::PeerAddress;
pub use self::connections::NetworkResource;
pub use self::events::NetworkEvent;
pub use self::message::Message;
pub use self::timer::HeartbeatTimer;
pub use self::transport::Transport;
