use clipbridge::network::address::SocketAddress;
use clipbridge::network::discovery::{announcement, DeviceDiscovery};
use clipbridge::network::message::{
    ClipboardData, CodecError, MessageType, NetworkMessage, Payload,
};
use clipbridge::network::p2p::{
    accept_step, clipboard_frame, frame, frame_length, frame_message, hello_frame, AcceptStep,
    Accepted, Connection, ConnectionState, HandlerError, P2PNetwork, ACCEPT_RETRY_MILLIS,
    MAX_MESSAGE_LEN, P2P_PORT,
};
use clipbridge::sync::{incoming_text, SyncState};

fn header(frame: &[u8]) -> [u8; 4] {
    [frame[0], frame[1], frame[2], frame[3]]
}

/// Feeds one frame to a handler as the bytes would come from a stream: first
/// the header, then as many bytes as the header declares.
fn receive(
    network: &mut P2PNetwork,
    connection: &mut Connection,
    frame: &[u8],
) -> Result<NetworkMessage, HandlerError> {
    let len = connection.header_read(&header(frame))?;
    assert_eq!(len, frame.len() - 4);
    network.handle_connection(connection, &frame[4..4 + len])
}

#[test]
fn constants() {
    assert_eq!(P2P_PORT, 7879);
    assert_eq!(MAX_MESSAGE_LEN, 10_000_000);
    assert_eq!(ACCEPT_RETRY_MILLIS, 100);
}

#[test]
fn frame_is_length_and_body() {
    assert_eq!(frame(b"abc"), Some(vec![0, 0, 0, 3, b'a', b'b', b'c']));
    assert_eq!(frame(b""), Some(vec![0, 0, 0, 0]));
    let body = vec![7u8; 0x0102_03];
    let framed = frame(&body).unwrap();
    assert_eq!(&framed[..4], &[0x00, 0x01, 0x02, 0x03]);
    assert_eq!(&framed[4..], &body[..]);
}

#[test]
fn frame_length_is_big_endian() {
    assert_eq!(frame_length(&[0, 0, 0, 0]), Ok(0));
    assert_eq!(frame_length(&[0, 0, 1, 2]), Ok(258));
    assert_eq!(frame_length(&[0x00, 0x98, 0x96, 0x7f]), Ok(9_999_999));
    assert_eq!(frame_length(&[0x00, 0x98, 0x96, 0x80]), Ok(10_000_000));
}

#[test]
fn oversized_frame_is_rejected() {
    // 10,000,001
    assert_eq!(frame_length(&[0x00, 0x98, 0x96, 0x81]), Err(HandlerError::OversizedMessage));
    assert_eq!(frame_length(&[0x01, 0, 0, 0]), Err(HandlerError::OversizedMessage));
    assert_eq!(frame_length(&[0xff, 0xff, 0xff, 0xff]), Err(HandlerError::OversizedMessage));
}

#[test]
fn oversized_frame_closes_the_connection_before_the_body() {
    let declared: u32 = 10_000_001;
    let mut connection = Connection::accepted(Some(1));
    assert_eq!(
        connection.header_read(&declared.to_be_bytes()),
        Err(HandlerError::OversizedMessage)
    );
    assert!(connection.is_closed());
    assert_eq!(connection.current_state(), ConnectionState::Closed);
    // nothing is read on it any more
    assert_eq!(connection.header_read(&[0, 0, 0, 1]), Err(HandlerError::Closed));
    let mut network = P2PNetwork::new("B".to_string());
    let body = NetworkMessage::stamped(
        MessageType::DeviceHello,
        "A".to_string(),
        Payload::hello("A").unwrap(),
        1,
        "n".to_string(),
    )
    .to_bytes();
    assert_eq!(
        network.handle_connection(&mut connection, &body).err(),
        Some(HandlerError::Closed)
    );
    assert!(network.targets().is_empty());
}

#[test]
fn largest_allowed_frame_keeps_the_connection() {
    let declared: u32 = 10_000_000;
    let mut connection = Connection::accepted(Some(1));
    assert_eq!(connection.header_read(&declared.to_be_bytes()), Ok(10_000_000));
    assert_eq!(connection.current_state(), ConnectionState::HandshakePending);
}

#[test]
fn connection_states() {
    let mut connection = Connection::outbound(Some(3));
    assert_eq!(connection.current_state(), ConnectionState::Connecting);
    assert_eq!(connection.write_half(), Some(3));
    assert_eq!(Connection::accepted(None).write_half(), None);
    connection.connected();
    assert_eq!(connection.current_state(), ConnectionState::HandshakePending);
    connection.connected();
    assert_eq!(connection.current_state(), ConnectionState::HandshakePending);
    assert_eq!(connection.peer_id(), None);
    connection.read_failed();
    assert!(connection.is_closed());
    connection.connected();
    assert!(connection.is_closed());
}

#[test]
fn accept_loop_steps() {
    match accept_step(Accepted::Stream { writer: Some(9) }) {
        AcceptStep::Serve(connection) => {
            assert_eq!(connection.current_state(), ConnectionState::HandshakePending)
        }
        other => panic!("unexpected step: {:?}", other),
    }
    assert!(matches!(accept_step(Accepted::WouldBlock), AcceptStep::Wait(100)));
    assert!(matches!(accept_step(Accepted::Failed), AcceptStep::Retry));
}

#[test]
fn network_starts_and_stops_idempotently() {
    let mut network = P2PNetwork::new("A".to_string());
    assert!(!network.is_running());
    assert!(network.start());
    assert!(!network.start());
    assert!(network.is_running());
    assert!(network.stop().is_empty());
    assert!(!network.is_running());
    assert!(network.stop().is_empty());
    assert!(network.start());
}

#[test]
fn hello_frame_is_exact() {
    let sent = hello_frame("A", 5, "n".to_string()).unwrap();
    let body = b"{\"msg_type\":\"DeviceHello\",\"from\":\"A\",\"to\":null,\"payload\":{\"device_id\":\"A\"},\"timestamp\":5,\"nonce\":\"n\"}";
    assert_eq!(&sent[..4], &(body.len() as u32).to_be_bytes());
    assert_eq!(&sent[4..], &body[..]);
}

#[test]
fn clipboard_frame_is_exact() {
    let data = ClipboardData::stamped("i".to_string(), "hello".to_string(), 4);
    let sent = clipboard_frame("A", &data, 5, "n".to_string()).unwrap();
    let body = b"{\"msg_type\":\"ClipboardUpdate\",\"from\":\"A\",\"to\":null,\"payload\":{\"content\":\"hello\",\"id\":\"i\",\"timestamp\":4},\"timestamp\":5,\"nonce\":\"n\"}";
    assert_eq!(&sent[..4], &(body.len() as u32).to_be_bytes());
    assert_eq!(&sent[4..], &body[..]);
}

#[test]
fn hello_registers_the_connection() {
    let mut network = P2PNetwork::new("B".to_string());
    let mut connection = Connection::accepted(Some(17));
    let message =
        receive(&mut network, &mut connection, &hello_frame("A", 5, "n".to_string()).unwrap())
            .unwrap();
    assert_eq!(message.msg_type, MessageType::DeviceHello);
    assert_eq!(message.from, "A");
    assert_eq!(connection.current_state(), ConnectionState::Identified);
    assert_eq!(connection.peer_id(), Some("A".to_string()));
    assert_eq!(network.connection_of("A"), Some(17));
    assert_eq!(network.connection_of("B"), None);
    assert_eq!(network.targets(), vec![17]);
}

#[test]
fn other_messages_are_handed_on_without_registering() {
    let mut network = P2PNetwork::new("B".to_string());
    let mut connection = Connection::accepted(Some(17));
    let ping = NetworkMessage::stamped(
        MessageType::Ping,
        "A".to_string(),
        Payload::parse(b"null".to_vec()).unwrap(),
        1,
        "n".to_string(),
    );
    let message =
        receive(&mut network, &mut connection, &frame_message(&ping).unwrap()).unwrap();
    assert_eq!(message.msg_type, MessageType::Ping);
    assert_eq!(connection.current_state(), ConnectionState::HandshakePending);
    assert_eq!(connection.peer_id(), None);
    assert!(network.targets().is_empty());
}

#[test]
fn hello_without_a_write_half_identifies_but_does_not_register() {
    let mut network = P2PNetwork::new("B".to_string());
    let mut connection = Connection::accepted(None);
    receive(&mut network, &mut connection, &hello_frame("A", 5, "n".to_string()).unwrap())
        .unwrap();
    assert_eq!(connection.current_state(), ConnectionState::Identified);
    assert_eq!(connection.peer_id(), Some("A".to_string()));
    assert!(network.targets().is_empty());
}

#[test]
fn a_later_connection_of_a_peer_takes_the_place_of_the_earlier() {
    let mut network = P2PNetwork::new("B".to_string());
    let mut first = Connection::accepted(Some(1));
    let mut other = Connection::accepted(Some(2));
    let mut second = Connection::accepted(Some(3));
    receive(&mut network, &mut first, &hello_frame("A", 5, "n".to_string()).unwrap()).unwrap();
    receive(&mut network, &mut other, &hello_frame("C", 5, "n".to_string()).unwrap()).unwrap();
    receive(&mut network, &mut second, &hello_frame("A", 6, "m".to_string()).unwrap()).unwrap();
    assert_eq!(network.targets(), vec![3, 2]);
    assert_eq!(network.connection_of("A"), Some(3));
    assert_eq!(network.connection_of("C"), Some(2));
}

#[test]
fn a_body_that_is_no_message_closes_the_connection() {
    let mut network = P2PNetwork::new("B".to_string());
    let mut connection = Connection::accepted(Some(1));
    assert_eq!(
        receive(&mut network, &mut connection, &frame(b"{\"msg_type\":1}").unwrap()).err(),
        Some(HandlerError::Codec(CodecError::MalformedPayload))
    );
    assert!(connection.is_closed());

    let mut connection = Connection::accepted(Some(2));
    let unknown = b"{\"msg_type\":\"Telemetry\",\"from\":\"a\",\"to\":null,\"payload\":null,\"timestamp\":1,\"nonce\":\"n\"}";
    assert_eq!(
        receive(&mut network, &mut connection, &frame(unknown).unwrap()).err(),
        Some(HandlerError::Codec(CodecError::UnknownVariant))
    );
    assert!(connection.is_closed());
    assert!(network.targets().is_empty());
}

#[test]
fn stop_clears_the_registry() {
    let mut network = P2PNetwork::new("B".to_string());
    network.start();
    let mut first = Connection::accepted(Some(1));
    let mut second = Connection::accepted(Some(2));
    receive(&mut network, &mut first, &hello_frame("A", 5, "n".to_string()).unwrap()).unwrap();
    receive(&mut network, &mut second, &hello_frame("C", 5, "n".to_string()).unwrap()).unwrap();
    assert_eq!(network.stop(), vec![1, 2]);
    assert!(network.targets().is_empty());
    assert_eq!(network.connection_of("A"), None);
}

#[test]
fn connect_to_peer_sends_a_hello() {
    let network = P2PNetwork::new("A".to_string());
    let sent = network.connect_to_peer().unwrap();
    let len = frame_length(&header(&sent)).unwrap();
    assert_eq!(len, sent.len() - 4);
    let message = NetworkMessage::from_bytes(&sent[4..]).unwrap();
    assert_eq!(message.msg_type, MessageType::DeviceHello);
    assert_eq!(message.from, "A");
    assert_eq!(message.to, None);
    assert_eq!(message.payload.as_bytes(), b"{\"device_id\":\"A\"}");
    assert_eq!(message.nonce.len(), 36);
}

#[test]
fn sync_state_toggles_idempotently() {
    let mut state = SyncState::new();
    assert!(!state.is_syncing());
    assert!(!state.stop_sync());
    assert!(state.start_sync());
    assert!(state.is_syncing());
    assert!(!state.start_sync());
    assert!(state.is_syncing());
    assert!(state.stop_sync());
    assert!(!state.is_syncing());
}

#[test]
fn only_clipboard_updates_ask_for_the_clipboard() {
    let data = ClipboardData::stamped("i".to_string(), "copied".to_string(), 4);
    let update = NetworkMessage::stamped(
        MessageType::ClipboardUpdate,
        "A".to_string(),
        data.to_payload().unwrap(),
        5,
        "n".to_string(),
    );
    assert_eq!(incoming_text(&update), Some("copied".to_string()));
    let mut ack = update.clone();
    ack.msg_type = MessageType::DeviceAck;
    assert_eq!(incoming_text(&ack), None);
    let mut odd = update.clone();
    odd.payload = Payload::parse(b"null".to_vec()).unwrap();
    assert_eq!(incoming_text(&odd), None);
}

#[test]
fn two_devices_find_each_other_and_share_a_text() {
    let addr_a = SocketAddress::v4(192, 168, 1, 10, 7879);
    let addr_b = SocketAddress::v4(192, 168, 1, 11, 7879);
    let mut discovery_a = DeviceDiscovery::new("A".to_string());
    let mut discovery_b = DeviceDiscovery::new("B".to_string());
    let mut network_a = P2PNetwork::new("A".to_string());
    let mut network_b = P2PNetwork::new("B".to_string());
    assert!(discovery_a.start());
    assert!(discovery_b.start());
    assert!(network_a.start());
    assert!(network_b.start());

    // one announce interval: each hears both announces on the multicast group
    let announce_a = discovery_a.broadcast_presence().unwrap().datagram;
    let announce_b = discovery_b.broadcast_presence().unwrap().datagram;
    assert_eq!(announce_a, announcement("A"));
    for discovery in [&mut discovery_a, &mut discovery_b] {
        discovery.record(&announce_a, addr_a, 1000);
        discovery.record(&announce_b, addr_b, 1000);
    }
    let seen_by_a = discovery_a.get_discovered_devices();
    let seen_by_b = discovery_b.get_discovered_devices();
    assert_eq!(seen_by_a.len(), 1);
    assert_eq!(seen_by_a[0].device_id, "B");
    assert_eq!(seen_by_a[0].addr, addr_b);
    assert_eq!(seen_by_b.len(), 1);
    assert_eq!(seen_by_b[0].device_id, "A");

    // A connects to B's address and sends its hello; B's handler registers A
    let hello = network_a.connect_to_peer().unwrap();
    let mut at_b = match accept_step(Accepted::Stream { writer: Some(1) }) {
        AcceptStep::Serve(connection) => connection,
        other => panic!("unexpected step: {:?}", other),
    };
    let first = receive(&mut network_b, &mut at_b, &hello).unwrap();
    assert_eq!(first.msg_type, MessageType::DeviceHello);
    assert_eq!(network_b.connection_of("A"), Some(1));

    // B has connected to A in the same way, so that A has a peer to write to
    let mut at_a = Connection::accepted(Some(2));
    receive(&mut network_a, &mut at_a, &network_b.connect_to_peer().unwrap()).unwrap();

    // A broadcasts a text; B's handler hands the update on
    let broadcast = network_a.broadcast_clipboard("hello".to_string()).unwrap();
    assert_eq!(broadcast.targets, vec![2]);
    let update = receive(&mut network_b, &mut at_b, &broadcast.frame).unwrap();
    assert_eq!(update.msg_type, MessageType::ClipboardUpdate);
    assert_eq!(update.from, "A");
    let data = ClipboardData::from_payload(&update.payload).unwrap();
    assert_eq!(data.content, "hello");
    assert_eq!(incoming_text(&update), Some("hello".to_string()));
}

#[test]
fn a_failed_write_does_not_keep_the_frame_from_other_peers() {
    let mut sender = P2PNetwork::new("S".to_string());
    let mut from_p1 = Connection::accepted(Some(1));
    let mut from_p2 = Connection::accepted(Some(2));
    receive(&mut sender, &mut from_p1, &hello_frame("P1", 1, "a".to_string()).unwrap()).unwrap();
    receive(&mut sender, &mut from_p2, &hello_frame("P2", 1, "b".to_string()).unwrap()).unwrap();

    let broadcast = sender.broadcast_clipboard("x".to_string()).unwrap();
    assert_eq!(broadcast.targets, vec![1, 2]);

    // the stream with handle 2 refuses every write
    let mut arrived_at_p1: Vec<u8> = Vec::new();
    let mut failures = 0;
    for handle in broadcast.targets.iter().rev() {
        if *handle == 2 {
            failures += 1;
        } else {
            arrived_at_p1.extend_from_slice(&broadcast.frame);
        }
    }
    assert_eq!(failures, 1);

    let mut p1 = P2PNetwork::new("P1".to_string());
    let mut at_p1 = Connection::outbound(None);
    at_p1.connected();
    let update = receive(&mut p1, &mut at_p1, &arrived_at_p1).unwrap();
    assert_eq!(incoming_text(&update), Some("x".to_string()));
}
