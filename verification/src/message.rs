//! The messages that peers exchange.

use crate::address::PeerAddress;
use crate::codec::{encode, encode_spec};
use vstd::prelude::*;

verus! {

/// A point on the application's integer grid.
#[derive(Clone, Copy, Debug, PartialEq, Eq, Hash, Structural)]
pub struct IVec3 {
    pub x: i32,
    pub y: i32,
    pub z: i32,
}

/// What one datagram carries.
#[derive(Clone, Copy, Debug, PartialEq, Eq, Hash, Structural)]
pub enum Message {
    /// Liveness only: keeps the sender's entry at the server fresh.
    Heartbeat,
    /// The sender's position.
    Positional(IVec3),
}

/// An encoded message on its way out, and where it goes.
///
/// Without a destination the datagram goes to the peer that the socket is
/// connected to, as a client sends; with one it goes to that peer alone, as
/// a server sends.
#[derive(Clone, Debug, PartialEq, Eq)]
pub struct OutgoingMessage {
    /// The serialized payload itself.
    pub payload: Vec<u8>,
    pub destination: Option<PeerAddress>,
}

/// What an [`OutgoingMessage`] holds, as plain values.
pub struct OutgoingMessageView {
    pub payload: Seq<u8>,
    pub destination: Option<PeerAddress>,
}

impl View for OutgoingMessage {
    type V = OutgoingMessageView;

    open spec fn view(&self) -> OutgoingMessageView {
        OutgoingMessageView { payload: self.payload@, destination: self.destination }
    }
}

impl OutgoingMessage {
    /// Encodes `message` for the socket's connected peer.
    pub fn new(message: Message) -> (outgoing: Self)
        ensures
            outgoing@ == (OutgoingMessageView {
                payload: encode_spec(message),
                destination: None,
            }),
    {
        Self { payload: encode(&message), destination: None }
    }

    /// Encodes `message` for the peer at `addr`.
    pub fn new_directed(addr: PeerAddress, message: Message) -> (outgoing: Self)
        ensures
            outgoing@ == (OutgoingMessageView {
                payload: encode_spec(message),
                destination: Some(addr),
            }),
    {
        Self { payload: encode(&message), destination: Some(addr) }
    }
}

} // verus!
