use net::message::IVec3;
use net::{Message, PeerAddress, Transport};

fn test_payload() -> Message {
    Message::Positional(IVec3 { x: 1, y: 0, z: 0 })
}

fn heartbeat_payload() -> Message {
    Message::Heartbeat
}

fn json_of(message: &Message) -> serde_json::Value {
    match message {
        Message::Heartbeat => serde_json::Value::String(String::from("Heartbeat")),
        Message::Positional(p) => {
            let coordinates = vec![
                serde_json::Value::from(p.x),
                serde_json::Value::from(p.y),
                serde_json::Value::from(p.z),
            ];
            let mut object = serde_json::Map::new();
            object.insert(String::from("Positional"), serde_json::Value::Array(coordinates));
            serde_json::Value::Object(object)
        }
    }
}

fn create_test_transport() -> Transport {
    Transport::new()
}

#[test]
fn test_send_to() {
    let mut transport = create_test_transport();

    transport.send_to("127.0.0.1:3000".parse().unwrap(), test_payload());

    let packet = &transport.get_messages()[0];

    assert_eq!(transport.get_messages().len(), 1);
    assert_eq!(packet.payload, serde_json::to_vec(&json_of(&test_payload())).unwrap());
}

#[test]
fn test_has_messages() {
    let mut transport = create_test_transport();
    assert_eq!(transport.has_messages(), false);
    transport.send_to("127.0.0.1:3000".parse().unwrap(), test_payload());
    assert_eq!(transport.has_messages(), true);
}

#[test]
fn test_drain_only_heartbeat_messages() {
    let mut transport = create_test_transport();

    let addr: PeerAddress = "127.0.0.1:3000".parse().unwrap();
    transport.send_to(addr, test_payload());
    transport.send_to(addr, heartbeat_payload());
    transport.send_to(addr, test_payload());
    transport.send_to(addr, heartbeat_payload());
    transport.send_to(addr, test_payload());

    assert_eq!(
        transport
            .drain_messages_to_send(
                |m| m.payload == serde_json::to_vec(&json_of(&heartbeat_payload())).unwrap()
            )
            .len(),
        2
    );
    // validate removal
    assert_eq!(
        transport
            .drain_messages_to_send(
                |m| m.payload == serde_json::to_vec(&json_of(&heartbeat_payload())).unwrap()
            )
            .len(),
        0
    );
    assert_eq!(transport.drain_messages_to_send(|_| false).len(), 0);
    assert_eq!(transport.drain_messages_to_send(|_| true).len(), 3);
    // validate removal
    assert_eq!(transport.drain_messages_to_send(|_| true).len(), 0);
}

#[test]
fn send_queues_for_the_connected_peer() {
    let mut transport = Transport::new();
    transport.send(Message::Heartbeat);
    let queued = transport.get_messages();
    assert_eq!(queued.len(), 1);
    assert_eq!(queued[0].payload, b"\"Heartbeat\"".to_vec());
    assert_eq!(queued[0].destination, None);
}

#[test]
fn send_to_queues_for_the_named_peer() {
    let addr = PeerAddress::v4(10, 0, 0, 7, 4567);
    let mut transport = Transport::new();
    transport.send_to(addr, Message::Positional(IVec3 { x: -5, y: 0, z: 12 }));
    let queued = transport.get_messages();
    assert_eq!(queued.len(), 1);
    assert_eq!(queued[0].payload, b"{\"Positional\":[-5,0,12]}".to_vec());
    assert_eq!(queued[0].destination, Some(addr));
}

#[test]
fn a_full_drain_keeps_the_order_and_empties_the_queue() {
    let m1 = Message::Positional(IVec3 { x: 1, y: 1, z: 1 });
    let m2 = Message::Heartbeat;
    let m3 = Message::Positional(IVec3 { x: 3, y: 3, z: 3 });
    let mut transport = Transport::new();
    transport.send(m1);
    transport.send(m2);
    transport.send(m3);

    let drained = transport.drain_messages_to_send(|_| true);

    let payloads: Vec<Vec<u8>> = drained.iter().map(|m| m.payload.clone()).collect();
    assert_eq!(
        payloads,
        vec![net::codec::encode(&m1), net::codec::encode(&m2), net::codec::encode(&m3)]
    );
    assert_eq!(transport.has_messages(), false);
    assert_eq!(transport.get_messages().len(), 0);
}

#[test]
fn a_selective_drain_takes_its_subset_in_order_and_leaves_the_rest_in_order() {
    let a = PeerAddress::v4(127, 0, 0, 1, 1);
    let b = PeerAddress::v4(127, 0, 0, 1, 2);
    let c = PeerAddress::v4(127, 0, 0, 1, 3);
    let near = Message::Positional(IVec3 { x: 1, y: 0, z: 0 });
    let far = Message::Positional(IVec3 { x: 2, y: 0, z: 0 });
    let mut transport = Transport::new();
    transport.send_to(a, Message::Heartbeat);
    transport.send_to(a, near);
    transport.send_to(b, Message::Heartbeat);
    transport.send_to(b, far);
    transport.send_to(c, Message::Heartbeat);

    let heartbeat = net::codec::encode(&Message::Heartbeat);
    let drained = transport.drain_messages_to_send(|m| m.payload == heartbeat);

    let to: Vec<Option<PeerAddress>> = drained.iter().map(|m| m.destination).collect();
    assert_eq!(to, vec![Some(a), Some(b), Some(c)]);
    assert!(drained.iter().all(|m| m.payload == heartbeat));
    let left: Vec<(Vec<u8>, Option<PeerAddress>)> = transport
        .get_messages()
        .iter()
        .map(|m| (m.payload.clone(), m.destination))
        .collect();
    assert_eq!(
        left,
        vec![(net::codec::encode(&near), Some(a)), (net::codec::encode(&far), Some(b))]
    );

    let again = transport.drain_messages_to_send(|m| m.payload == heartbeat);
    assert_eq!(again.len(), 0);
    assert_eq!(transport.get_messages().len(), 2);
}

#[test]
fn draining_an_empty_queue_gives_nothing() {
    let mut transport = Transport::new();
    assert_eq!(transport.drain_messages_to_send(|_| true).len(), 0);
    assert_eq!(transport.drain_messages_to_send(|_| false).len(), 0);
    assert_eq!(transport.drain_messages_to_send(|m| m.destination.is_none()).len(), 0);
    assert_eq!(transport.has_messages(), false);
}

#[test]
fn a_drain_that_takes_nothing_is_a_peek() {
    let mut transport = Transport::new();
    transport.send(Message::Heartbeat);
    transport.send(Message::Positional(IVec3 { x: 0, y: 0, z: 0 }));
    let mut asked: Vec<Vec<u8>> = Vec::new();
    let seen = std::cell::RefCell::new(&mut asked);
    let drained = transport.drain_messages_to_send(|m| {
        seen.borrow_mut().push(m.payload.clone());
        false
    });
    assert_eq!(drained.len(), 0);
    assert_eq!(transport.get_messages().len(), 2);
    assert_eq!(
        asked,
        vec![b"\"Heartbeat\"".to_vec(), b"{\"Positional\":[0,0,0]}".to_vec()]
    );
}

#[test]
fn a_new_queue_is_empty_and_so_is_the_default_one() {
    assert_eq!(Transport::new().has_messages(), false);
    assert_eq!(Transport::default().has_messages(), false);
}
