//! What the receive and send steps report.

use crate::address::PeerAddress;
use crate::message::{Message, OutgoingMessage};
use vstd::prelude::*;

verus! {

/// Why a socket operation failed, as far as the transport tells failures
/// apart.
#[derive(Clone, Copy, Debug, PartialEq, Eq, Hash, Structural)]
pub enum IoErrorKind {
    /// Nothing to receive right now. On a non-blocking socket this is the
    /// ordinary end of a tick's receiving, not a failure.
    WouldBlock,
    ConnectionRefused,
    ConnectionReset,
    ConnectionAborted,
    NotConnected,
    AddrInUse,
    AddrNotAvailable,
    PermissionDenied,
    InvalidInput,
    TimedOut,
    Interrupted,
    /// Any failure that has no variant of its own.
    Other,
}

/// A failed socket operation.
#[derive(Clone, Copy, Debug, PartialEq, Eq, Hash, Structural)]
pub struct IoError {
    pub kind: IoErrorKind,
    /// The operating system's error number, where it gave one.
    pub os_code: Option<i32>,
}

/// One thing that happened on the network during a tick.
///
/// Events are raised in the order in which things happened and are meant
/// to be consumed in the tick that raised them.
#[derive(Clone, Debug, PartialEq, Eq)]
pub enum NetworkEvent {
    /// A message was received from a peer.
    Message(PeerAddress, Message),
    /// A new peer has connected to us.
    Connected(PeerAddress),
    /// A peer has disconnected from us.
    Disconnected(PeerAddress),
    /// An error occurred while receiving a message.
    RecvError(IoError),
    /// An error occurred while sending a message. The message comes back
    /// unchanged: whether to queue it again is up to the receiver of this
    /// event.
    SendError(IoError, OutgoingMessage),
}

} // verus!
