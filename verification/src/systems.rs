//! The steps of one tick.
//!
//! A tick runs in a fixed order: receive everything that has arrived, let
//! the application react, send what was queued, and, at the server, sweep
//! out peers that have gone silent. The caller owns the socket and drives
//! that order; the steps here make every decision and never touch the
//! socket themselves. Each of them appends what it has to report to the
//! tick's events.

use crate::address::PeerAddress;
use crate::codec::{decode, decode_spec};
use crate::connections::{
    distinct, evicted, is_idle, is_known, lemma_filter_keeps_distinct, lemma_refreshed_distinct,
    refreshed, survivors, Connection, NetworkResource, DEFAULT_IDLE_TIMEOUT,
};
use crate::events::{IoError, IoErrorKind, NetworkEvent};
use crate::message::{Message, OutgoingMessage, OutgoingMessageView};
use crate::timer::{carried_over, fires, HeartbeatTimer, DEFAULT_HEARTBEAT_PERIOD};
use crate::transport::{select, Transport};
use vstd::prelude::*;

verus! {

/// The size of the buffer to receive into, in bytes. Every encoded message
/// fits; a longer datagram is cut off by the socket and then fails to
/// decode.
pub const RECV_BUFFER_SIZE: usize = 512;

/// One received datagram.
#[derive(Clone, Debug, PartialEq, Eq)]
pub struct Datagram {
    pub from: PeerAddress,
    pub payload: Vec<u8>,
}

/// What a datagram from `from` with these bytes raises: a `Message` if the
/// bytes decode, nothing if they do not.
pub open spec fn message_events(from: PeerAddress, payload: Seq<u8>) -> Seq<NetworkEvent> {
    match decode_spec(payload) {
        Some(message) => seq![NetworkEvent::Message(from, message)],
        None => Seq::empty(),
    }
}

/// What a failed receive raises: nothing if there was just no datagram
/// waiting, a `RecvError` for any other failure.
pub open spec fn recv_error_events(error: IoError) -> Seq<NetworkEvent> {
    if error.kind == IoErrorKind::WouldBlock {
        Seq::empty()
    } else {
        seq![NetworkEvent::RecvError(error)]
    }
}

/// What one receive raises at a client.
pub open spec fn client_recv_events(received: Result<Datagram, IoError>) -> Seq<NetworkEvent> {
    match received {
        Ok(datagram) => message_events(datagram.from, datagram.payload@),
        Err(error) => recv_error_events(error),
    }
}

/// What one receive raises at a server that has `connections`: for a
/// datagram first `Connected` if its sender is new, then what the datagram
/// itself raises.
pub open spec fn server_recv_events(
    connections: Seq<Connection>,
    received: Result<Datagram, IoError>,
) -> Seq<NetworkEvent> {
    match received {
        Ok(datagram) => {
            let greeting = if is_known(connections, datagram.from) {
                Seq::empty()
            } else {
                seq![NetworkEvent::Connected(datagram.from)]
            };
            greeting + message_events(datagram.from, datagram.payload@)
        },
        Err(error) => recv_error_events(error),
    }
}

/// The server's connections after one receive at `now`.
pub open spec fn server_recv_connections(
    connections: Seq<Connection>,
    now: u64,
    received: Result<Datagram, IoError>,
) -> Seq<Connection> {
    match received {
        Ok(datagram) => refreshed(connections, datagram.from, now),
        Err(_) => connections,
    }
}

/// What a sweep at `now` raises: `Disconnected` for each peer it removes.
pub open spec fn disconnected_events(
    connections: Seq<Connection>,
    now: u64,
    idle_timeout: u64,
) -> Seq<NetworkEvent> {
    evicted(connections, now, idle_timeout).map_values(
        |c: Connection| NetworkEvent::Disconnected(c.address),
    )
}

/// What the outcome of sending `message` raises: a `SendError` that holds
/// the message if the send failed, nothing if it went out.
pub open spec fn send_events(result: Result<usize, IoError>, message: OutgoingMessage) -> Seq<
    NetworkEvent,
> {
    match result {
        Ok(_) => Seq::empty(),
        Err(error) => seq![NetworkEvent::SendError(error, message)],
    }
}

/// Appends to `events` what `payload` from `from` raises.
fn raise_message(from: PeerAddress, payload: &[u8], events: &mut Vec<NetworkEvent>)
    ensures
        final(events)@ == old(events)@ + message_events(from, payload@),
{
    if let Some(message) = decode(payload) {
        events.push(NetworkEvent::Message(from, message));
    }
    assert(events@ =~= old(events)@ + message_events(from, payload@));
}

/// Appends to `events` what a failed receive raises.
fn raise_recv_error(error: IoError, events: &mut Vec<NetworkEvent>)
    ensures
        final(events)@ == old(events)@ + recv_error_events(error),
{
    match error.kind {
        IoErrorKind::WouldBlock => {},
        _ => {
            events.push(NetworkEvent::RecvError(error));
        },
    }
    assert(events@ =~= old(events)@ + recv_error_events(error));
}

/// The client's part in receiving: handles the outcome of one receive on
/// the socket, and says whether to receive again in this tick.
///
/// The caller receives until this returns `false`: datagram after datagram
/// is taken in, and the first failure ends the tick's receiving, be it that
/// nothing is waiting or that the socket is broken. A datagram that does
/// not decode is dropped without a word.
pub fn client_recv_packet_system(
    received: Result<Datagram, IoError>,
    events: &mut Vec<NetworkEvent>,
) -> (again: bool)
    ensures
        again == received is Ok,
        final(events)@ == old(events)@ + client_recv_events(received),
{
    match received {
        Ok(datagram) => {
            raise_message(datagram.from, datagram.payload.as_slice(), events);
            true
        },
        Err(error) => {
            raise_recv_error(error, events);
            false
        },
    }
}

/// The server's part in receiving: handles the outcome of one receive on
/// the socket at `now`, and says whether to receive again in this tick.
///
/// As at the client, but every datagram, whether it decodes or not, also
/// counts as a sign of life: its sender is entered in `net` if it is new,
/// which raises `Connected`, and has its time set to `now` if it is known.
pub fn server_recv_packet_system(
    now: u64,
    received: Result<Datagram, IoError>,
    events: &mut Vec<NetworkEvent>,
    net: &mut NetworkResource,
) -> (again: bool)
    ensures
        again == received is Ok,
        final(events)@ == old(events)@ + server_recv_events(old(net)@, received),
        final(net)@ == server_recv_connections(old(net)@, now, received),
        final(net).idle_timeout() == old(net).idle_timeout(),
        old(net).well_formed() ==> final(net).well_formed(),
{
    match received {
        Ok(datagram) => {
            if net.refresh(datagram.from, now) {
                // connection established
                events.push(NetworkEvent::Connected(datagram.from));
            }
            raise_message(datagram.from, datagram.payload.as_slice(), events);
            assert(events@ =~= old(events)@ + server_recv_events(old(net)@, received));
            true
        },
        Err(error) => {
            raise_recv_error(error, events);
            false
        },
    }
}

/// The send step, first half: takes everything out of the queue, oldest
/// first, for the caller to write to the socket. A message with a
/// destination goes to that peer, one without to the socket's connected
/// peer.
pub fn send_packet_system(transport: &mut Transport) -> (batch: Vec<OutgoingMessage>)
    ensures
        batch@ == old(transport)@,
        final(transport)@ == Seq::<OutgoingMessage>::empty(),
{
    let ghost queued = transport@;
    let batch = transport.drain_messages_to_send(|_m: &OutgoingMessage| -> (take: bool)
        ensures
            take,
        { true });
    proof {
        let picked = choose|picked: Seq<bool>|
            {
                &&& picked.len() == queued.len()
                &&& forall|i: int| 0 <= i < picked.len() ==> #[trigger] picked[i]
                &&& batch@ == select(queued, picked, true)
                &&& transport@ == select(queued, picked, false)
            };
        crate::transport::lemma_select_all(queued, picked);
    }
    batch
}

/// The send step, second half: notes how sending `message` went. A failed
/// send raises `SendError` with the message in it; nothing is retried.
pub fn report_send(
    result: Result<usize, IoError>,
    message: OutgoingMessage,
    events: &mut Vec<NetworkEvent>,
)
    ensures
        final(events)@ == old(events)@ + send_events(result, message),
{
    if let Err(error) = result {
        events.push(NetworkEvent::SendError(error, message));
    }
    assert(events@ =~= old(events)@ + send_events(result, message));
}

/// The server's sweep at `now`: removes every peer that has been silent
/// for longer than the idle timeout and raises `Disconnected` for it.
pub fn idle_timeout_system(now: u64, net: &mut NetworkResource, events: &mut Vec<NetworkEvent>)
    ensures
        final(net)@ == survivors(old(net)@, now, old(net).idle_timeout()),
        final(events)@ == old(events)@ + disconnected_events(
            old(net)@,
            now,
            old(net).idle_timeout(),
        ),
        final(net).idle_timeout() == old(net).idle_timeout(),
        old(net).well_formed() ==> final(net).well_formed(),
{
    let gone = net.evict_idle(now);
    let ghost raise = |c: Connection| NetworkEvent::Disconnected(c.address);
    let mut i: usize = 0;
    while i < gone.len()
        invariant
            i <= gone.len(),
            raise == |c: Connection| NetworkEvent::Disconnected(c.address),
            events@ == old(events)@ + gone@.subrange(0, i as int).map_values(raise),
        decreases gone.len() - i,
    {
        events.push(NetworkEvent::Disconnected(gone[i].address));
        i += 1;
        assert(events@ =~= old(events)@ + gone@.subrange(0, i as int).map_values(raise));
    }
    assert(gone@.subrange(0, i as int) =~= gone@);
}

/// The client's heartbeat: lets `delta` pass on `timer` and, if the timer
/// fires, queues one `Heartbeat` for the socket's connected peer.
pub fn auto_heartbeat_system(delta: u64, timer: &mut HeartbeatTimer, transport: &mut Transport)
    ensures
        final(timer).period() == old(timer).period(),
        final(timer).elapsed() == carried_over(old(timer).period(), old(timer).elapsed(), delta),
        fires(old(timer).period(), old(timer).elapsed(), delta) ==> {
            &&& final(transport)@.len() == old(transport)@.len() + 1
            &&& final(transport)@.drop_last() == old(transport)@
            &&& final(transport)@.last()@ == (OutgoingMessageView {
                payload: crate::codec::heartbeat_text(),
                destination: None,
            })
        },
        !fires(old(timer).period(), old(timer).elapsed(), delta) ==> final(transport)@ == old(
            transport,
        )@,
{
    if timer.tick(delta) {
        transport.send(Message::Heartbeat);
    }
}

/// A client that is polled often enough sends at least two heartbeats in
/// the time that the server waits by default: one lost datagram does not
/// cost a live client its connection.
pub proof fn lemma_default_period_fits_default_timeout()
    ensures
        2 * DEFAULT_HEARTBEAT_PERIOD <= DEFAULT_IDLE_TIMEOUT,
{
}

/// A peer's first datagram raises `Connected` for it, ahead of what the
/// datagram itself raises, and enters it in the registry. Its next one
/// raises no `Connected`, only what the datagram itself raises, and sets
/// its time anew.
pub proof fn lemma_new_peer_is_announced_once(
    connections: Seq<Connection>,
    first_at: u64,
    first: Datagram,
    second_at: u64,
    second: Datagram,
)
    requires
        !is_known(connections, first.from),
        second.from == first.from,
    ensures
        server_recv_events(connections, Ok(first)) == seq![NetworkEvent::Connected(first.from)]
            + message_events(first.from, first.payload@),
        ({
            let met = server_recv_connections(connections, first_at, Ok(first));
            &&& is_known(met, first.from)
            &&& server_recv_events(met, Ok(second)) == message_events(
                second.from,
                second.payload@,
            )
            &&& !server_recv_events(met, Ok(second)).contains(
                NetworkEvent::Connected(second.from),
            )
            &&& server_recv_connections(met, second_at, Ok(second)).contains(
                Connection { address: second.from, last_seen: second_at },
            )
        }),
{
    let peer = first.from;
    let met = server_recv_connections(connections, first_at, Ok(first));
    assert(met.last().address == peer);
    assert(is_known(met, peer));
    assert(server_recv_events(met, Ok(second)) =~= message_events(peer, second.payload@));
    let again = server_recv_connections(met, second_at, Ok(second));
    assert(again[met.len() - 1] == Connection { address: peer, last_seen: second_at });
}

/// A peer that was heard no longer than the idle timeout ago stays through
/// a sweep: a client whose heartbeats arrive in time is never
/// disconnected, and a peer that was heard in this tick never is.
pub proof fn lemma_a_peer_heard_in_time_stays(
    connections: Seq<Connection>,
    address: PeerAddress,
    heard_at: u64,
    now: u64,
    idle_timeout: u64,
)
    requires
        now - heard_at <= idle_timeout,
    ensures
        survivors(refreshed(connections, address, heard_at), now, idle_timeout).contains(
            Connection { address, last_seen: heard_at },
        ),
        distinct(connections) ==> !disconnected_events(
            refreshed(connections, address, heard_at),
            now,
            idle_timeout,
        ).contains(NetworkEvent::Disconnected(address)),
{
    let heard = Connection { address, last_seen: heard_at };
    let met = refreshed(connections, address, heard_at);
    let stays = |c: Connection| !is_idle(c.last_seen, now, idle_timeout);
    let i = if is_known(connections, address) {
        choose|i: int| 0 <= i < connections.len() && connections[i].address == address
    } else {
        connections.len() as int
    };
    assert(met[i] == heard);
    met.lemma_filter_contains(stays, i);
    if distinct(connections) {
        lemma_refreshed_distinct(connections, address, heard_at);
        lemma_sweep_evicts_the_idle(met, now, idle_timeout, i);
    }
}

/// A sweep removes a peer that has been silent for longer than the idle
/// timeout and raises exactly one `Disconnected` for it; a peer that has
/// been heard more recently stays as it is, and nothing is raised for it.
pub proof fn lemma_sweep_evicts_the_idle(
    connections: Seq<Connection>,
    now: u64,
    idle_timeout: u64,
    i: int,
)
    requires
        distinct(connections),
        0 <= i < connections.len(),
    ensures
        ({
            let peer = connections[i];
            let left = survivors(connections, now, idle_timeout);
            let raised = disconnected_events(connections, now, idle_timeout);
            let farewell = NetworkEvent::Disconnected(peer.address);
            if is_idle(peer.last_seen, now, idle_timeout) {
                &&& !is_known(left, peer.address)
                &&& exists|k: int|
                    0 <= k < raised.len() && raised[k] == farewell && forall|j: int|
                        0 <= j < raised.len() && #[trigger] raised[j] == farewell ==> j == k
            } else {
                &&& left.contains(peer)
                &&& !raised.contains(farewell)
            }
        }),
{
    let peer = connections[i];
    let stays = |c: Connection| !is_idle(c.last_seen, now, idle_timeout);
    let goes = |c: Connection| is_idle(c.last_seen, now, idle_timeout);
    let left = survivors(connections, now, idle_timeout);
    let gone = evicted(connections, now, idle_timeout);
    let raised = disconnected_events(connections, now, idle_timeout);
    let farewell = NetworkEvent::Disconnected(peer.address);
    lemma_filter_keeps_distinct(connections, stays);
    lemma_filter_keeps_distinct(connections, goes);
    // An entry of what was kept or removed is an entry of the registry, and
    // the only one with its address is `peer`.
    assert forall|c: Connection|
        (left.contains(c) || gone.contains(c)) && c.address == peer.address implies c == peer by {
        assert(connections.contains(c));
        let k = choose|k: int| 0 <= k < connections.len() && connections[k] == c;
        assert(k == i);
    }
    if is_idle(peer.last_seen, now, idle_timeout) {
        if is_known(left, peer.address) {
            let k = choose|k: int| 0 <= k < left.len() && left[k].address == peer.address;
            assert(left.contains(left[k]));
            connections.lemma_filter_pred(stays, k);
        }
        connections.lemma_filter_contains(goes, i);
        let k = choose|k: int| 0 <= k < gone.len() && gone[k] == peer;
        assert(raised[k] == farewell);
        assert forall|j: int| 0 <= j < raised.len() && #[trigger] raised[j] == farewell implies j
            == k by {
            assert(gone.contains(gone[j]));
            assert(gone[j].address == peer.address);
        }
    } else {
        connections.lemma_filter_contains(stays, i);
        if raised.contains(farewell) {
            let j = choose|j: int| 0 <= j < raised.len() && raised[j] == farewell;
            assert(gone.contains(gone[j]));
            connections.lemma_filter_pred(goes, j);
        }
    }
}

} // verus!
