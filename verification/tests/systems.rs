use net::connections::{Connection, DEFAULT_IDLE_TIMEOUT};
use net::events::{IoError, IoErrorKind};
use net::message::{IVec3, OutgoingMessage};
use net::systems::{
    auto_heartbeat_system, client_recv_packet_system, idle_timeout_system, report_send,
    send_packet_system, server_recv_packet_system, Datagram,
};
use net::timer::DEFAULT_HEARTBEAT_PERIOD;
use net::{HeartbeatTimer, Message, NetworkEvent, NetworkResource, PeerAddress, Transport};

const SECOND: u64 = 1_000_000_000;

fn peer(last: u8) -> PeerAddress {
    PeerAddress::v4(10, 0, 0, last, 4567)
}

fn datagram(from: PeerAddress, payload: &[u8]) -> Result<Datagram, IoError> {
    Ok(Datagram { from, payload: payload.to_vec() })
}

fn failure(kind: IoErrorKind) -> IoError {
    IoError { kind, os_code: Some(11) }
}

#[test]
fn the_first_datagram_of_a_peer_announces_it_and_the_second_does_not() {
    let a = peer(1);
    let mut net = NetworkResource::default();
    let mut events: Vec<NetworkEvent> = Vec::new();

    let again = server_recv_packet_system(
        SECOND,
        datagram(a, b"\"Heartbeat\""),
        &mut events,
        &mut net,
    );
    assert!(again);
    assert_eq!(
        events,
        vec![NetworkEvent::Connected(a), NetworkEvent::Message(a, Message::Heartbeat)]
    );
    assert_eq!(net.last_seen(a), Some(SECOND));

    events.clear();
    let again = server_recv_packet_system(
        2 * SECOND,
        datagram(a, b"{\"Positional\":[1,2,3]}"),
        &mut events,
        &mut net,
    );
    assert!(again);
    assert_eq!(
        events,
        vec![NetworkEvent::Message(a, Message::Positional(IVec3 { x: 1, y: 2, z: 3 }))]
    );
    assert_eq!(net.last_seen(a), Some(2 * SECOND));
    assert_eq!(net.connections().len(), 1);
}

#[test]
fn a_datagram_that_does_not_decode_still_counts_as_a_sign_of_life() {
    let a = peer(1);
    let mut net = NetworkResource::default();
    let mut events: Vec<NetworkEvent> = Vec::new();
    assert!(server_recv_packet_system(7, datagram(a, b"garbage"), &mut events, &mut net));
    assert_eq!(events, vec![NetworkEvent::Connected(a)]);
    assert_eq!(net.last_seen(a), Some(7));

    events.clear();
    assert!(server_recv_packet_system(9, datagram(a, b""), &mut events, &mut net));
    assert_eq!(events, vec![]);
    assert_eq!(net.last_seen(a), Some(9));
}

#[test]
fn receiving_ends_silently_when_nothing_is_waiting() {
    let mut net = NetworkResource::default();
    let mut events: Vec<NetworkEvent> = Vec::new();
    let again = server_recv_packet_system(
        1,
        Err(failure(IoErrorKind::WouldBlock)),
        &mut events,
        &mut net,
    );
    assert!(!again);
    assert_eq!(events, vec![]);
    assert_eq!(net.connections().len(), 0);

    let again = client_recv_packet_system(Err(failure(IoErrorKind::WouldBlock)), &mut events);
    assert!(!again);
    assert_eq!(events, vec![]);
}

#[test]
fn any_other_failure_to_receive_is_reported_and_ends_receiving() {
    let kinds = [
        IoErrorKind::ConnectionRefused,
        IoErrorKind::ConnectionReset,
        IoErrorKind::ConnectionAborted,
        IoErrorKind::NotConnected,
        IoErrorKind::AddrInUse,
        IoErrorKind::AddrNotAvailable,
        IoErrorKind::PermissionDenied,
        IoErrorKind::InvalidInput,
        IoErrorKind::TimedOut,
        IoErrorKind::Interrupted,
        IoErrorKind::Other,
    ];
    for kind in kinds {
        let mut net = NetworkResource::default();
        let mut events: Vec<NetworkEvent> = Vec::new();
        let again = server_recv_packet_system(1, Err(failure(kind)), &mut events, &mut net);
        assert!(!again);
        assert_eq!(events, vec![NetworkEvent::RecvError(failure(kind))]);
        assert_eq!(net.connections().len(), 0);

        let mut events: Vec<NetworkEvent> = Vec::new();
        let again = client_recv_packet_system(Err(failure(kind)), &mut events);
        assert!(!again);
        assert_eq!(events, vec![NetworkEvent::RecvError(failure(kind))]);
    }
}

#[test]
fn a_client_raises_what_decodes_and_drops_what_does_not() {
    let server = peer(200);
    let mut events: Vec<NetworkEvent> = Vec::new();
    assert!(client_recv_packet_system(datagram(server, b"\"Heartbeat\""), &mut events));
    assert!(client_recv_packet_system(datagram(server, b"{\"Positional\":[1,2"), &mut events));
    assert!(client_recv_packet_system(
        datagram(server, b"{\"Positional\":[0,-9,9]}"),
        &mut events
    ));
    assert!(!client_recv_packet_system(Err(failure(IoErrorKind::WouldBlock)), &mut events));
    assert_eq!(
        events,
        vec![
            NetworkEvent::Message(server, Message::Heartbeat),
            NetworkEvent::Message(server, Message::Positional(IVec3 { x: 0, y: -9, z: 9 })),
        ]
    );
}

#[test]
fn events_keep_the_order_of_the_datagrams() {
    let (a, b) = (peer(1), peer(2));
    let mut net = NetworkResource::default();
    let mut events: Vec<NetworkEvent> = Vec::new();
    assert!(server_recv_packet_system(5, datagram(a, b"\"Heartbeat\""), &mut events, &mut net));
    assert!(server_recv_packet_system(5, datagram(b, b"\"Heartbeat\""), &mut events, &mut net));
    assert!(server_recv_packet_system(5, datagram(a, b"\"Heartbeat\""), &mut events, &mut net));
    assert!(!server_recv_packet_system(
        5,
        Err(failure(IoErrorKind::ConnectionReset)),
        &mut events,
        &mut net
    ));
    assert_eq!(
        events,
        vec![
            NetworkEvent::Connected(a),
            NetworkEvent::Message(a, Message::Heartbeat),
            NetworkEvent::Connected(b),
            NetworkEvent::Message(b, Message::Heartbeat),
            NetworkEvent::Message(a, Message::Heartbeat),
            NetworkEvent::RecvError(failure(IoErrorKind::ConnectionReset)),
        ]
    );
    assert_eq!(
        net.connections().clone(),
        vec![
            Connection { address: a, last_seen: 5 },
            Connection { address: b, last_seen: 5 }
        ]
    );
}

#[test]
fn a_sweep_removes_the_idle_and_keeps_the_rest() {
    let (a, b, c) = (peer(1), peer(2), peer(3));
    let mut net = NetworkResource::default();
    assert_eq!(net.idle_timeout(), 5 * SECOND);
    assert_eq!(DEFAULT_IDLE_TIMEOUT, 5 * SECOND);
    assert!(net.refresh(a, 0));
    assert!(net.refresh(b, 2 * SECOND));
    assert!(net.refresh(c, 0));
    assert!(!net.refresh(c, 4 * SECOND));

    // at 5 s nobody has been silent for longer than 5 s
    let mut events: Vec<NetworkEvent> = Vec::new();
    idle_timeout_system(5 * SECOND, &mut net, &mut events);
    assert_eq!(events, vec![]);
    assert_eq!(net.connections().len(), 3);

    // one nanosecond later `a` has
    idle_timeout_system(5 * SECOND + 1, &mut net, &mut events);
    assert_eq!(events, vec![NetworkEvent::Disconnected(a)]);
    assert_eq!(net.last_seen(a), None);
    assert_eq!(net.last_seen(b), Some(2 * SECOND));
    assert_eq!(net.last_seen(c), Some(4 * SECOND));

    // a second sweep at the same time finds nothing more
    events.clear();
    idle_timeout_system(5 * SECOND + 1, &mut net, &mut events);
    assert_eq!(events, vec![]);

    events.clear();
    idle_timeout_system(100 * SECOND, &mut net, &mut events);
    assert_eq!(events, vec![NetworkEvent::Disconnected(b), NetworkEvent::Disconnected(c)]);
    assert_eq!(net.connections().len(), 0);
}

#[test]
fn a_sweep_ignores_a_clock_that_ran_backwards() {
    let a = peer(1);
    let mut net = NetworkResource::new(3);
    assert!(net.refresh(a, 1000));
    let mut events: Vec<NetworkEvent> = Vec::new();
    idle_timeout_system(10, &mut net, &mut events);
    assert_eq!(events, vec![]);
    assert_eq!(net.last_seen(a), Some(1000));
    idle_timeout_system(1003, &mut net, &mut events);
    assert_eq!(events, vec![]);
    idle_timeout_system(1004, &mut net, &mut events);
    assert_eq!(events, vec![NetworkEvent::Disconnected(a)]);
}

#[test]
fn an_evicted_peer_that_returns_is_new_again() {
    let a = peer(1);
    let mut net = NetworkResource::new(5 * SECOND);
    let mut events: Vec<NetworkEvent> = Vec::new();
    assert!(server_recv_packet_system(0, datagram(a, b"\"Heartbeat\""), &mut events, &mut net));
    idle_timeout_system(6 * SECOND, &mut net, &mut events);
    assert!(server_recv_packet_system(
        7 * SECOND,
        datagram(a, b"\"Heartbeat\""),
        &mut events,
        &mut net
    ));
    assert_eq!(
        events,
        vec![
            NetworkEvent::Connected(a),
            NetworkEvent::Message(a, Message::Heartbeat),
            NetworkEvent::Disconnected(a),
            NetworkEvent::Connected(a),
            NetworkEvent::Message(a, Message::Heartbeat),
        ]
    );
}

#[test]
fn a_heartbeat_goes_out_once_per_period() {
    assert_eq!(DEFAULT_HEARTBEAT_PERIOD, 2 * SECOND);
    assert!(2 * DEFAULT_HEARTBEAT_PERIOD <= DEFAULT_IDLE_TIMEOUT);

    // exactly one period: one heartbeat
    let mut timer = HeartbeatTimer::default();
    let mut transport = Transport::new();
    auto_heartbeat_system(2 * SECOND, &mut timer, &mut transport);
    assert_eq!(transport.get_messages().len(), 1);
    assert_eq!(transport.get_messages()[0].payload, b"\"Heartbeat\"".to_vec());
    assert_eq!(transport.get_messages()[0].destination, None);

    // and one more for the next whole period
    auto_heartbeat_system(2 * SECOND, &mut timer, &mut transport);
    assert_eq!(transport.get_messages().len(), 2);

    // a quarter of a period: none
    let mut timer = HeartbeatTimer::new(2 * SECOND);
    let mut transport = Transport::new();
    auto_heartbeat_system(SECOND / 2, &mut timer, &mut transport);
    assert_eq!(transport.has_messages(), false);

    // two and a half periods at once: one, not two
    let mut timer = HeartbeatTimer::new(2 * SECOND);
    let mut transport = Transport::new();
    auto_heartbeat_system(5 * SECOND, &mut timer, &mut transport);
    assert_eq!(transport.get_messages().len(), 1);
    assert_eq!(timer.elapsed(), SECOND);
}

#[test]
fn the_timer_carries_the_remainder_over() {
    let mut timer = HeartbeatTimer::new(10);
    assert_eq!(timer.period(), 10);
    assert_eq!(timer.elapsed(), 0);
    assert!(!timer.tick(9));
    assert_eq!(timer.elapsed(), 9);
    assert!(timer.tick(1));
    assert_eq!(timer.elapsed(), 0);
    assert!(!timer.tick(0));
    assert!(timer.tick(25));
    assert_eq!(timer.elapsed(), 5);
    assert!(timer.tick(5));
    assert_eq!(timer.elapsed(), 0);
    assert!(!timer.tick(4));
    assert!(timer.tick(u64::MAX));
    assert_eq!(timer.elapsed(), ((4u128 + u64::MAX as u128) % 10) as u64);

    let mut always = HeartbeatTimer::new(0);
    assert!(always.tick(0));
    assert!(always.tick(7));
    assert_eq!(always.elapsed(), 0);
}

#[test]
fn the_send_step_takes_everything_in_order() {
    let (a, b) = (peer(1), peer(2));
    let mut transport = Transport::new();
    transport.send_to(a, Message::Heartbeat);
    transport.send(Message::Positional(IVec3 { x: 1, y: 2, z: 3 }));
    transport.send_to(b, Message::Heartbeat);

    let batch = send_packet_system(&mut transport);

    assert_eq!(
        batch,
        vec![
            OutgoingMessage::new_directed(a, Message::Heartbeat),
            OutgoingMessage::new(Message::Positional(IVec3 { x: 1, y: 2, z: 3 })),
            OutgoingMessage::new_directed(b, Message::Heartbeat),
        ]
    );
    assert_eq!(transport.has_messages(), false);
    assert_eq!(send_packet_system(&mut transport), vec![]);
}

#[test]
fn a_failed_send_hands_the_message_back() {
    let message = OutgoingMessage::new_directed(peer(1), Message::Heartbeat);
    let error = failure(IoErrorKind::ConnectionRefused);
    let mut events: Vec<NetworkEvent> = Vec::new();

    report_send(Ok(11), message.clone(), &mut events);
    assert_eq!(events, vec![]);

    report_send(Err(error), message.clone(), &mut events);
    assert_eq!(events, vec![NetworkEvent::SendError(error, message.clone())]);

    // would-block is a failure like any other when sending
    let busy = failure(IoErrorKind::WouldBlock);
    report_send(Err(busy), message.clone(), &mut events);
    assert_eq!(
        events,
        vec![
            NetworkEvent::SendError(error, message.clone()),
            NetworkEvent::SendError(busy, message),
        ]
    );
}

#[test]
fn the_registry_keeps_one_entry_per_peer() {
    let (a, b) = (peer(1), peer(2));
    let mut net = NetworkResource::new(50);
    assert_eq!(net.idle_timeout(), 50);
    assert_eq!(net.last_seen(a), None);
    assert!(net.refresh(a, 1));
    assert!(net.refresh(b, 2));
    assert!(!net.refresh(a, 3));
    assert!(!net.refresh(a, 2));
    assert_eq!(
        net.connections().clone(),
        vec![
            Connection { address: a, last_seen: 2 },
            Connection { address: b, last_seen: 2 }
        ]
    );
    let gone = net.evict_idle(52);
    assert_eq!(gone, vec![]);
    let gone = net.evict_idle(53);
    assert_eq!(
        gone,
        vec![
            Connection { address: a, last_seen: 2 },
            Connection { address: b, last_seen: 2 }
        ]
    );
    assert_eq!(net.connections().len(), 0);
}
