use clipbridge::network::message::{
    ClipboardData, CodecError, MessageType, NetworkMessage, Payload,
};

fn payload(text: &str) -> Payload {
    Payload::parse(text.as_bytes().to_vec()).unwrap()
}

fn sample() -> NetworkMessage {
    NetworkMessage::stamped(
        MessageType::Ping,
        "device-a".to_string(),
        payload("null"),
        1_700_000_000_123,
        "n-1".to_string(),
    )
}

fn same(a: &NetworkMessage, b: &NetworkMessage) -> bool {
    a.msg_type == b.msg_type
        && a.from == b.from
        && a.to == b.to
        && a.payload.as_bytes() == b.payload.as_bytes()
        && a.timestamp == b.timestamp
        && a.nonce == b.nonce
}

fn round_trip(message: &NetworkMessage) {
    let bytes = message.to_bytes();
    let back = NetworkMessage::from_bytes(&bytes).unwrap();
    assert!(same(message, &back), "{:?} came back as {:?}", message, back);
    assert_eq!(back.to_bytes(), bytes);
}

#[test]
fn message_is_written_as_compact_json() {
    let text = String::from_utf8(sample().to_bytes()).unwrap();
    assert_eq!(
        text,
        "{\"msg_type\":\"Ping\",\"from\":\"device-a\",\"to\":null,\"payload\":null,\"timestamp\":1700000000123,\"nonce\":\"n-1\"}"
    );
}

#[test]
fn recipients_are_written_as_a_list() {
    let mut message = sample();
    message.to = Some(vec!["b".to_string(), "c".to_string()]);
    let text = String::from_utf8(message.to_bytes()).unwrap();
    assert!(text.contains(",\"to\":[\"b\",\"c\"],"), "{}", text);
    message.to = Some(vec![]);
    let text = String::from_utf8(message.to_bytes()).unwrap();
    assert!(text.contains(",\"to\":[],"), "{}", text);
    message.to = Some(vec!["only".to_string()]);
    let text = String::from_utf8(message.to_bytes()).unwrap();
    assert!(text.contains(",\"to\":[\"only\"],"), "{}", text);
}

#[test]
fn strings_are_escaped_as_serde_json_does() {
    let mut message = sample();
    message.from = "a\"b\\c\n\t\r\u{08}\u{0c}\u{01}\u{1f}\u{7f}é€😀/".to_string();
    let bytes = message.to_bytes();
    let text = String::from_utf8(bytes.clone()).unwrap();
    assert!(
        text.contains("\"from\":\"a\\\"b\\\\c\\n\\t\\r\\b\\f\\u0001\\u001f\u{7f}é€😀/\","),
        "{}",
        text
    );
    let expected = serde_json::to_string(&message.from).unwrap();
    assert!(text.contains(&expected), "{} lacks {}", text, expected);
}

#[test]
fn written_message_is_json_that_serde_json_reads() {
    let mut message = sample();
    message.msg_type = MessageType::ClipboardUpdate;
    message.to = Some(vec!["x\ny".to_string()]);
    message.payload = payload("{\"k\":[1,2,{\"deep\":\"a,b}\"}]}");
    let value: serde_json::Value = serde_json::from_slice(&message.to_bytes()).unwrap();
    assert_eq!(value["msg_type"].as_str(), Some("ClipboardUpdate"));
    assert_eq!(value["from"].as_str(), Some("device-a"));
    assert_eq!(value["to"][0].as_str(), Some("x\ny"));
    assert_eq!(value["payload"]["k"][2]["deep"].as_str(), Some("a,b}"));
    assert_eq!(value["timestamp"].as_u64(), Some(1_700_000_000_123));
    assert_eq!(value["nonce"].as_str(), Some("n-1"));
}

#[test]
fn what_serde_json_writes_for_the_same_members_is_read() {
    let mut object = serde_json::Map::new();
    object.insert("content".to_string(), serde_json::Value::from("hi \"there\"\n"));
    object.insert("id".to_string(), serde_json::Value::from("id-1"));
    object.insert("timestamp".to_string(), serde_json::Value::from(42u64));
    let written = serde_json::to_vec(&serde_json::Value::Object(object)).unwrap();
    let data = ClipboardData::from_payload(&Payload::parse(written).unwrap()).unwrap();
    assert_eq!(data.content, "hi \"there\"\n");
    assert_eq!(data.id, "id-1");
    assert_eq!(data.timestamp, 42);
}

#[test]
fn every_message_type_round_trips() {
    let types = [
        (MessageType::ClipboardUpdate, "ClipboardUpdate"),
        (MessageType::DeviceHello, "DeviceHello"),
        (MessageType::DeviceAck, "DeviceAck"),
        (MessageType::DeviceGoodbye, "DeviceGoodbye"),
        (MessageType::Ping, "Ping"),
        (MessageType::Pong, "Pong"),
    ];
    for (msg_type, name) in types {
        assert_eq!(msg_type.as_str(), name);
        assert_eq!(MessageType::from_name(&name.to_string()), Some(msg_type));
        let mut message = sample();
        message.msg_type = msg_type;
        round_trip(&message);
    }
    assert_eq!(MessageType::from_name(&"ping".to_string()), None);
    assert_eq!(MessageType::from_name(&String::new()), None);
}

#[test]
fn messages_round_trip() {
    round_trip(&sample());
    let mut message = sample();
    message.from = String::new();
    message.nonce = "\\\"\u{0}".to_string();
    message.timestamp = 0;
    round_trip(&message);
    message.timestamp = u64::MAX;
    message.to = Some(vec![String::new(), ",".to_string(), "]".to_string(), "\"".to_string()]);
    message.payload = payload("[\"a,b\",{\"c\":\"}\\\"\"},[],{}]");
    round_trip(&message);
    message.payload = payload("\"text, with comma\"");
    round_trip(&message);
    message.payload = payload("-1.5e3");
    round_trip(&message);
    message.payload = payload("{\"timestamp\":1,\"nonce\":\"x\"}");
    round_trip(&message);
    message.to = Some(vec![]);
    round_trip(&message);
}

#[test]
fn largest_timestamp_is_written_in_full() {
    let mut message = sample();
    message.timestamp = u64::MAX;
    let text = String::from_utf8(message.to_bytes()).unwrap();
    assert!(text.contains("\"timestamp\":18446744073709551615,"), "{}", text);
}

#[test]
fn unknown_message_type_is_rejected() {
    let bytes = b"{\"msg_type\":\"Telemetry\",\"from\":\"a\",\"to\":null,\"payload\":null,\"timestamp\":1,\"nonce\":\"n\"}";
    assert_eq!(NetworkMessage::from_bytes(bytes).err(), Some(CodecError::UnknownVariant));
    let bytes = b"{\"msg_type\":\"\",\"from\":\"a\",\"to\":null,\"payload\":null,\"timestamp\":1,\"nonce\":\"n\"}";
    assert_eq!(NetworkMessage::from_bytes(bytes).err(), Some(CodecError::UnknownVariant));
}

fn malformed(bytes: &[u8]) {
    assert_eq!(
        NetworkMessage::from_bytes(bytes).err(),
        Some(CodecError::MalformedPayload),
        "{}",
        String::from_utf8_lossy(bytes)
    );
}

#[test]
fn malformed_bytes_are_rejected() {
    malformed(b"");
    malformed(b"{}");
    malformed(b"null");
    malformed(b"not json at all");
    malformed(&[0xff, 0xfe, 0x00]);
    // a member is missing
    malformed(b"{\"msg_type\":\"Ping\",\"from\":\"a\",\"to\":null,\"payload\":null,\"timestamp\":1}");
    // the recipients are no list of strings
    malformed(b"{\"msg_type\":\"Ping\",\"from\":\"a\",\"to\":[1],\"payload\":null,\"timestamp\":1,\"nonce\":\"n\"}");
    // the timestamp does not fit in 64 bits
    malformed(b"{\"msg_type\":\"Ping\",\"from\":\"a\",\"to\":null,\"payload\":null,\"timestamp\":18446744073709551616,\"nonce\":\"n\"}");
    // the timestamp is negative
    malformed(b"{\"msg_type\":\"Ping\",\"from\":\"a\",\"to\":null,\"payload\":null,\"timestamp\":-1,\"nonce\":\"n\"}");
    // something follows the object
    malformed(b"{\"msg_type\":\"Ping\",\"from\":\"a\",\"to\":null,\"payload\":null,\"timestamp\":1,\"nonce\":\"n\"}x");
    // the string is not UTF-8
    malformed(b"{\"msg_type\":\"Ping\",\"from\":\"\xff\",\"to\":null,\"payload\":null,\"timestamp\":1,\"nonce\":\"n\"}");
    // a bare control character in a string
    malformed(b"{\"msg_type\":\"Ping\",\"from\":\"a\nb\",\"to\":null,\"payload\":null,\"timestamp\":1,\"nonce\":\"n\"}");
}

#[test]
fn payload_that_is_no_json_is_rejected() {
    malformed(b"{\"msg_type\":\"Ping\",\"from\":\"a\",\"to\":null,\"payload\":nul,\"timestamp\":1,\"nonce\":\"n\"}");
    malformed(b"{\"msg_type\":\"Ping\",\"from\":\"a\",\"to\":null,\"payload\":{\"k\":},\"timestamp\":1,\"nonce\":\"n\"}");
    malformed(b"{\"msg_type\":\"Ping\",\"from\":\"a\",\"to\":null,\"payload\":,\"timestamp\":1,\"nonce\":\"n\"}");
    malformed(b"{\"msg_type\":\"Ping\",\"from\":\"a\",\"to\":null,\"payload\":[1,\"timestamp\":1,\"nonce\":\"n\"}");
}

#[test]
fn only_the_written_form_is_read() {
    // white space between the members
    malformed(b"{\"msg_type\": \"Ping\",\"from\":\"a\",\"to\":null,\"payload\":null,\"timestamp\":1,\"nonce\":\"n\"}");
    // the members in another order
    malformed(b"{\"from\":\"a\",\"msg_type\":\"Ping\",\"to\":null,\"payload\":null,\"timestamp\":1,\"nonce\":\"n\"}");
    // a number with a leading zero
    malformed(b"{\"msg_type\":\"Ping\",\"from\":\"a\",\"to\":null,\"payload\":null,\"timestamp\":01,\"nonce\":\"n\"}");
    // a line feed written as \u000a and not as \n
    malformed(b"{\"msg_type\":\"Ping\",\"from\":\"a\\u000ab\",\"to\":null,\"payload\":null,\"timestamp\":1,\"nonce\":\"n\"}");
    // the same with the short form is read
    let bytes = b"{\"msg_type\":\"Ping\",\"from\":\"a\\nb\",\"to\":null,\"payload\":null,\"timestamp\":1,\"nonce\":\"n\"}";
    assert_eq!(NetworkMessage::from_bytes(bytes).unwrap().from, "a\nb");
    // a control character without a short form
    let bytes = b"{\"msg_type\":\"Ping\",\"from\":\"a\\u001bb\",\"to\":null,\"payload\":null,\"timestamp\":1,\"nonce\":\"n\"}";
    assert_eq!(NetworkMessage::from_bytes(bytes).unwrap().from, "a\u{1b}b");
}

#[test]
fn payload_is_kept_as_it_was_written() {
    let bytes = b"{\"msg_type\":\"Pong\",\"from\":\"a\",\"to\":[\"b\"],\"payload\":{\"k\": [1, 2]},\"timestamp\":7,\"nonce\":\"n\"}";
    let message = NetworkMessage::from_bytes(bytes).unwrap();
    assert_eq!(message.msg_type, MessageType::Pong);
    assert_eq!(message.from, "a");
    assert_eq!(message.to, Some(vec!["b".to_string()]));
    assert_eq!(message.payload.as_bytes(), b"{\"k\": [1, 2]}");
    assert_eq!(message.timestamp, 7);
    assert_eq!(message.nonce, "n");
    assert_eq!(message.to_bytes(), bytes.to_vec());
}

#[test]
fn payload_must_be_one_json_value_that_ends_with_its_text() {
    assert!(Payload::parse(b"null".to_vec()).is_some());
    assert!(Payload::parse(b"{\"a\":[1,2,3]}".to_vec()).is_some());
    assert!(Payload::parse(b"\"a,b\"".to_vec()).is_some());
    assert!(Payload::parse(b"12".to_vec()).is_some());
    assert!(Payload::parse(b"".to_vec()).is_none());
    assert!(Payload::parse(b"1,2".to_vec()).is_none());
    assert!(Payload::parse(b"{\"a\":}".to_vec()).is_none());
    assert!(Payload::parse(b"{\"a\":1".to_vec()).is_none());
    assert!(Payload::parse(b"]".to_vec()).is_none());
    assert!(Payload::parse(b"nul".to_vec()).is_none());
    assert!(Payload::parse(b"\"open".to_vec()).is_none());
}

#[test]
fn hello_payload_holds_the_device_id() {
    let payload = Payload::hello("dev \"1\"").unwrap();
    assert_eq!(payload.as_bytes(), b"{\"device_id\":\"dev \\\"1\\\"\"}");
    let value: serde_json::Value = serde_json::from_slice(payload.as_bytes()).unwrap();
    assert_eq!(value["device_id"].as_str(), Some("dev \"1\""));
}

#[test]
fn clipboard_data_is_written_with_sorted_keys() {
    let data = ClipboardData::stamped("id-1".to_string(), "hello".to_string(), 1234);
    let payload = data.to_payload().unwrap();
    assert_eq!(
        payload.as_bytes(),
        b"{\"content\":\"hello\",\"id\":\"id-1\",\"timestamp\":1234}"
    );
}

#[test]
fn clipboard_data_round_trips() {
    let texts = ["hello", "", "line\nbreak \"quoted\" \\ back", "ünï©ødé 😀", "{\"a\":1},"];
    for text in texts {
        let data = ClipboardData::stamped("some id".to_string(), text.to_string(), u64::MAX);
        let back = ClipboardData::from_payload(&data.to_payload().unwrap()).unwrap();
        assert_eq!(back.id, "some id");
        assert_eq!(back.content, text);
        assert_eq!(back.timestamp, u64::MAX);
    }
}

#[test]
fn other_payloads_are_no_clipboard_data() {
    assert!(ClipboardData::from_payload(&payload("null")).is_none());
    assert!(ClipboardData::from_payload(&payload("{}")).is_none());
    assert!(ClipboardData::from_payload(&payload("{\"device_id\":\"a\"}")).is_none());
    assert!(ClipboardData::from_payload(&payload("{\"content\":\"a\",\"id\":\"b\"}")).is_none());
    assert!(ClipboardData::from_payload(&payload(
        "{\"id\":\"b\",\"content\":\"a\",\"timestamp\":1}"
    ))
    .is_none());
    assert!(ClipboardData::from_payload(&payload(
        "{\"content\":\"a\",\"id\":\"b\",\"timestamp\":1.5}"
    ))
    .is_none());
}

fn is_uuid_text(text: &str) -> bool {
    text.len() == 36
        && text.chars().enumerate().all(|(i, c)| {
            if i == 8 || i == 13 || i == 18 || i == 23 {
                c == '-'
            } else {
                c.is_ascii_digit() || ('a'..='f').contains(&c)
            }
        })
}

#[test]
fn new_message_is_stamped_with_time_and_a_fresh_nonce() {
    let first = NetworkMessage::new(MessageType::DeviceAck, "a".to_string(), payload("null"));
    let second = NetworkMessage::new(MessageType::DeviceAck, "a".to_string(), payload("null"));
    assert_eq!(first.msg_type, MessageType::DeviceAck);
    assert_eq!(first.from, "a");
    assert_eq!(first.to, None);
    assert_eq!(first.payload.as_bytes(), b"null");
    // later than the year 2020, in milliseconds
    assert!(first.timestamp > 1_577_836_800_000);
    assert!(second.timestamp >= first.timestamp);
    assert!(is_uuid_text(&first.nonce), "{}", first.nonce);
    assert!(is_uuid_text(&second.nonce), "{}", second.nonce);
    assert_ne!(first.nonce, second.nonce);
    round_trip(&first);
}

#[test]
fn new_clipboard_data_is_stamped_with_time_and_a_fresh_id() {
    let first = ClipboardData::new("text".to_string());
    let second = ClipboardData::new("text".to_string());
    assert_eq!(first.content, "text");
    assert!(first.timestamp > 1_577_836_800_000);
    assert!(is_uuid_text(&first.id), "{}", first.id);
    assert_ne!(first.id, second.id);
}

#[test]
fn copies_are_equal() {
    let mut message = sample();
    message.to = Some(vec!["b".to_string(), "c".to_string()]);
    let copy = message.clone();
    assert!(same(&message, &copy));
    let data = ClipboardData::stamped("i".to_string(), "c".to_string(), 5);
    let copy = data.clone();
    assert_eq!((copy.id, copy.content, copy.timestamp), ("i".to_string(), "c".to_string(), 5));
}

/// A small generator of test values: a linear congruential sequence.
struct Dice(u64);

impl Dice {
    fn roll(&mut self, sides: u64) -> u64 {
        self.0 = self.0.wrapping_mul(6364136223846793005).wrapping_add(1442695040888963407);
        (self.0 >> 33) % sides
    }

    fn text(&mut self) -> String {
        let alphabet = [
            "a", "Z", "0", " ", "\"", "\\", "/", ",", ":", "{", "}", "[", "]", "\n", "\t", "\r",
            "\u{0}", "\u{1}", "\u{8}", "\u{c}", "\u{1f}", "\u{7f}", "\u{80}", "é", "€", "😀",
            "\u{fffd}", "null",
        ];
        let len = self.roll(12);
        (0..len).map(|_| alphabet[self.roll(alphabet.len() as u64) as usize]).collect()
    }

    fn payload(&mut self) -> Payload {
        let value = match self.roll(6) {
            0 => serde_json::Value::Null,
            1 => serde_json::Value::from(self.roll(1000) as i64 - 500),
            2 => serde_json::Value::from(self.text()),
            3 => serde_json::Value::from(vec![self.text(), self.text()]),
            4 => serde_json::Value::Bool(self.roll(2) == 0),
            _ => {
                let mut object = serde_json::Map::new();
                object.insert(self.text(), serde_json::Value::from(self.text()));
                object.insert(self.text(), serde_json::Value::from(vec![1u8, 2, 3]));
                serde_json::Value::Object(object)
            }
        };
        Payload::parse(serde_json::to_vec(&value).unwrap()).unwrap()
    }
}

#[test]
fn many_messages_round_trip() {
    let types = [
        MessageType::ClipboardUpdate,
        MessageType::DeviceHello,
        MessageType::DeviceAck,
        MessageType::DeviceGoodbye,
        MessageType::Ping,
        MessageType::Pong,
    ];
    let mut dice = Dice(2024);
    for _ in 0..500 {
        let mut message = NetworkMessage::stamped(
            types[dice.roll(6) as usize],
            dice.text(),
            dice.payload(),
            dice.roll(u64::MAX),
            dice.text(),
        );
        message.to = match dice.roll(3) {
            0 => None,
            1 => Some(vec![]),
            _ => Some((0..dice.roll(4)).map(|_| dice.text()).collect()),
        };
        round_trip(&message);
        // what is written is JSON with the same strings in it
        let value: serde_json::Value = serde_json::from_slice(&message.to_bytes()).unwrap();
        assert_eq!(value["from"].as_str(), Some(message.from.as_str()));
        assert_eq!(value["nonce"].as_str(), Some(message.nonce.as_str()));
        assert_eq!(value["timestamp"].as_u64(), Some(message.timestamp));
        assert_eq!(value["msg_type"].as_str(), Some(message.msg_type.as_str()));
    }
}

#[test]
fn many_clipboard_texts_round_trip() {
    let mut dice = Dice(7);
    for _ in 0..500 {
        let data = ClipboardData::stamped(dice.text(), dice.text(), dice.roll(u64::MAX));
        let payload = data.to_payload().unwrap();
        let back = ClipboardData::from_payload(&payload).unwrap();
        assert_eq!((&back.id, &back.content, back.timestamp), (&data.id, &data.content, data.timestamp));
        // the same object as serde_json writes it, with its keys in order
        let mut object = serde_json::Map::new();
        object.insert("timestamp".to_string(), serde_json::Value::from(data.timestamp));
        object.insert("id".to_string(), serde_json::Value::from(data.id.clone()));
        object.insert("content".to_string(), serde_json::Value::from(data.content.clone()));
        let written = serde_json::to_vec(&serde_json::Value::Object(object)).unwrap();
        assert_eq!(payload.as_bytes(), &written[..]);
    }
}

#[test]
fn many_hello_payloads_are_what_serde_json_writes() {
    let mut dice = Dice(99);
    for _ in 0..200 {
        let id = dice.text();
        let mut object = serde_json::Map::new();
        object.insert("device_id".to_string(), serde_json::Value::from(id.clone()));
        let written = serde_json::to_vec(&serde_json::Value::Object(object)).unwrap();
        assert_eq!(Payload::hello(&id).unwrap().as_bytes(), &written[..]);
    }
}
