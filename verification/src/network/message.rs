//! The messages that peers exchange, and their form on the wire.
//!
//! A message is written as one JSON object without white space, its members
//! in the order `msg_type`, `from`, `to`, `payload`, `timestamp`, `nonce`.
//! Reading is the inverse of writing: a byte string is read as a message
//! exactly if it is what writing that message gives.

use crate::foreign::{fresh_id, is_json, is_uuid_text, json_valid, unix_millis};
use crate::network::json::{
    check_delimited, decimal, is_delimited, lemma_delimited, lemma_scan_decimal,
    lemma_scan_over_byte, lemma_scan_over_joined, lemma_scan_quoted, optional_list, quoted,
    same_bytes, scan_outside, scan_start, texts, write_decimal, write_optional_list,
    write_quoted, OPEN_BRACE,
};
use crate::network::object::{
    entry, last_entry, last_number_entry_at, last_text_entry_at, lemma_entry_written,
    lemma_last_entry_written, lemma_last_number_entry_at, lemma_last_text_entry_at,
    lemma_list_entry_at, lemma_number_entry_at, lemma_scan_entry, lemma_scan_last_entry,
    lemma_skip_into, lemma_skip_joined, lemma_text_entry_at, lemma_value_entry_at,
    list_entry_at, number_entry_at, read_last_number_entry, read_last_text_entry,
    read_list_entry, read_number_entry, read_text_entry, read_value_entry, text_entry_at,
    value_entry_at, write_bytes, write_close, write_comma, write_key,
};
use vstd::prelude::*;
use vstd::slice::slice_to_vec;

verus! {

/// What a message is about.
#[derive(Debug, Clone, Copy, PartialEq, Eq, Structural)]
pub enum MessageType {
    ClipboardUpdate,
    DeviceHello,
    DeviceAck,
    DeviceGoodbye,
    Ping,
    Pong,
}

/// Why a byte string was not read as a message.
#[derive(Debug, Clone, Copy, PartialEq, Eq, Structural)]
pub enum CodecError {
    /// The bytes are not the written form of any message.
    MalformedPayload,
    /// The bytes have the form of a message, but name a type that is not known.
    UnknownVariant,
}

impl MessageType {
    /// The name of the type on the wire.
    pub open spec fn name(self) -> Seq<char> {
        match self {
            MessageType::ClipboardUpdate => "ClipboardUpdate"@,
            MessageType::DeviceHello => "DeviceHello"@,
            MessageType::DeviceAck => "DeviceAck"@,
            MessageType::DeviceGoodbye => "DeviceGoodbye"@,
            MessageType::Ping => "Ping"@,
            MessageType::Pong => "Pong"@,
        }
    }

    /// The type with the given name on the wire, if there is one.
    pub open spec fn named(name: Seq<char>) -> Option<MessageType> {
        if name == "ClipboardUpdate"@ {
            Some(MessageType::ClipboardUpdate)
        } else if name == "DeviceHello"@ {
            Some(MessageType::DeviceHello)
        } else if name == "DeviceAck"@ {
            Some(MessageType::DeviceAck)
        } else if name == "DeviceGoodbye"@ {
            Some(MessageType::DeviceGoodbye)
        } else if name == "Ping"@ {
            Some(MessageType::Ping)
        } else if name == "Pong"@ {
            Some(MessageType::Pong)
        } else {
            None
        }
    }

    /// The name of the type on the wire.
    pub fn as_str(&self) -> (name: &'static str)
        ensures
            name@ == self.name(),
    {
        match self {
            MessageType::ClipboardUpdate => "ClipboardUpdate",
            MessageType::DeviceHello => "DeviceHello",
            MessageType::DeviceAck => "DeviceAck",
            MessageType::DeviceGoodbye => "DeviceGoodbye",
            MessageType::Ping => "Ping",
            MessageType::Pong => "Pong",
        }
    }

    /// The type with the given name on the wire, if there is one.
    pub fn from_name(name: &String) -> (found: Option<MessageType>)
        ensures
            found == MessageType::named(name@),
    {
        if *name == String::from_str("ClipboardUpdate") {
            Some(MessageType::ClipboardUpdate)
        } else if *name == String::from_str("DeviceHello") {
            Some(MessageType::DeviceHello)
        } else if *name == String::from_str("DeviceAck") {
            Some(MessageType::DeviceAck)
        } else if *name == String::from_str("DeviceGoodbye") {
            Some(MessageType::DeviceGoodbye)
        } else if *name == String::from_str("Ping") {
            Some(MessageType::Ping)
        } else if *name == String::from_str("Pong") {
            Some(MessageType::Pong)
        } else {
            None
        }
    }
}

/// Every type is found again by its name.
pub proof fn lemma_named(msg_type: MessageType)
    ensures
        MessageType::named(msg_type.name()) == Some(msg_type),
{
    reveal_strlit("ClipboardUpdate");
    reveal_strlit("DeviceHello");
    reveal_strlit("DeviceAck");
    reveal_strlit("DeviceGoodbye");
    reveal_strlit("Ping");
    reveal_strlit("Pong");
    assert("ClipboardUpdate"@.len() == 15);
    assert("DeviceHello"@.len() == 11);
    assert("DeviceAck"@.len() == 9);
    assert("DeviceGoodbye"@.len() == 13);
    assert("Ping"@.len() == 4);
    assert("Pong"@.len() == 4);
    assert("Ping"@[1] == 'i' && "Pong"@[1] == 'o');
}

/// The members of a message as they stand on the wire, the type by its name.
pub struct Envelope {
    pub kind: Seq<char>,
    pub from: Seq<char>,
    pub to: Option<Seq<Seq<char>>>,
    pub payload: Seq<u8>,
    pub timestamp: u64,
    pub nonce: Seq<char>,
}

/// A payload is JSON text that ends where its value ends: `serde_json` reads it
/// as one value, and behind it a comma is the first comma outside a string
/// or bracket.
pub open spec fn valid_payload(text: Seq<u8>) -> bool {
    is_delimited(text) && json_valid(text)
}

/// Whether an envelope can be written and read back: its payload is valid.
pub open spec fn well_formed(e: Envelope) -> bool {
    valid_payload(e.payload)
}

/// The key of the member that names the type.
pub open spec fn key_msg_type() -> Seq<char> {
    "msg_type"@
}

/// The key of the member that names the sender.
pub open spec fn key_from() -> Seq<char> {
    "from"@
}

/// The key of the member that lists the recipients.
pub open spec fn key_to() -> Seq<char> {
    "to"@
}

/// The key of the member that holds the payload.
pub open spec fn key_payload() -> Seq<char> {
    "payload"@
}

/// The key of the member that holds the time.
pub open spec fn key_timestamp() -> Seq<char> {
    "timestamp"@
}

/// The key of the member that holds the nonce.
pub open spec fn key_nonce() -> Seq<char> {
    "nonce"@
}

/// The written form of an envelope: an object with the six members in their
/// order.
pub open spec fn envelope_text(e: Envelope) -> Seq<u8> {
    seq![OPEN_BRACE] + entry(
        key_msg_type(),
        quoted(e.kind),
        entry(
            key_from(),
            quoted(e.from),
            entry(
                key_to(),
                optional_list(e.to),
                entry(
                    key_payload(),
                    e.payload,
                    entry(
                        key_timestamp(),
                        decimal(e.timestamp as nat),
                        last_entry(key_nonce(), quoted(e.nonce)),
                    ),
                ),
            ),
        ),
    )
}

/// Reads a byte string as an envelope.
pub open spec fn envelope_at(s: Seq<u8>) -> Option<Envelope> {
    if s.len() == 0 || s[0] != OPEN_BRACE {
        None
    } else {
        match text_entry_at(s.skip(1), key_msg_type()) {
            Some((kind, n1)) => match text_entry_at(s.skip(1 + n1), key_from()) {
                Some((from, n2)) => match list_entry_at(s.skip(1 + n1 + n2), key_to()) {
                    Some((to, n3)) => match value_entry_at(
                        s.skip(1 + n1 + n2 + n3),
                        key_payload(),
                    ) {
                        Some((payload, n4)) => match number_entry_at(
                            s.skip(1 + n1 + n2 + n3 + n4),
                            key_timestamp(),
                        ) {
                            Some((timestamp, n5)) => match last_text_entry_at(
                                s.skip(1 + n1 + n2 + n3 + n4 + n5),
                                key_nonce(),
                            ) {
                                Some(nonce) => Some(
                                    Envelope { kind, from, to, payload, timestamp, nonce },
                                ),
                                None => None,
                            },
                            None => None,
                        },
                        None => None,
                    },
                    None => None,
                },
                None => None,
            },
            None => None,
        }
    }
}

/// A written envelope is read back.
pub proof fn lemma_envelope_at(e: Envelope)
    requires
        is_delimited(e.payload),
    ensures
        envelope_at(envelope_text(e)) == Some(e),
{
    let e6 = last_entry(key_nonce(), quoted(e.nonce));
    let e5 = entry(key_timestamp(), decimal(e.timestamp as nat), e6);
    let e4 = entry(key_payload(), e.payload, e5);
    let e3 = entry(key_to(), optional_list(e.to), e4);
    let e2 = entry(key_from(), quoted(e.from), e3);
    let e1 = entry(key_msg_type(), quoted(e.kind), e2);
    let s = seq![OPEN_BRACE] + e1;
    assert(s[0] == OPEN_BRACE);
    lemma_skip_joined(seq![OPEN_BRACE], e1);
    lemma_text_entry_at(key_msg_type(), e.kind, e2);
    let n1 = e1.len() - e2.len();
    lemma_skip_into(s, 1, e1, n1);
    lemma_text_entry_at(key_from(), e.from, e3);
    let n2 = e2.len() - e3.len();
    lemma_skip_into(s, 1 + n1, e2, n2);
    lemma_list_entry_at(key_to(), e.to, e4);
    let n3 = e3.len() - e4.len();
    lemma_skip_into(s, 1 + n1 + n2, e3, n3);
    lemma_value_entry_at(key_payload(), e.payload, e5);
    let n4 = e4.len() - e5.len();
    lemma_skip_into(s, 1 + n1 + n2 + n3, e4, n4);
    lemma_number_entry_at(key_timestamp(), e.timestamp, e6);
    let n5 = e5.len() - e6.len();
    lemma_skip_into(s, 1 + n1 + n2 + n3 + n4, e5, n5);
    lemma_last_text_entry_at(key_nonce(), e.nonce);
}

/// No two envelopes are written alike.
pub proof fn lemma_envelope_text_is_injective(a: Envelope, b: Envelope)
    requires
        is_delimited(a.payload),
        is_delimited(b.payload),
        envelope_text(a) == envelope_text(b),
    ensures
        a == b,
{
    lemma_envelope_at(a);
    lemma_envelope_at(b);
}

/// The recipients of a message as texts.
pub open spec fn recipients(to: Option<Vec<String>>) -> Option<Seq<Seq<char>>> {
    match to {
        Some(list) => Some(texts(list@)),
        None => None,
    }
}

/// Writes an envelope.
fn write_envelope(
    kind: &str,
    from: &str,
    to: &Option<Vec<String>>,
    payload: &[u8],
    timestamp: u64,
    nonce: &str,
) -> (out: Vec<u8>)
    ensures
        out@ == envelope_text(
            Envelope {
                kind: kind@,
                from: from@,
                to: recipients(*to),
                payload: payload@,
                timestamp,
                nonce: nonce@,
            },
        ),
{
    let mut out: Vec<u8> = Vec::new();
    out.push(OPEN_BRACE);
    let ghost b0 = out@;
    write_key(&mut out, "msg_type");
    write_quoted(&mut out, kind);
    write_comma(&mut out);
    let ghost b1 = out@;
    write_key(&mut out, "from");
    write_quoted(&mut out, from);
    write_comma(&mut out);
    let ghost b2 = out@;
    write_key(&mut out, "to");
    write_optional_list(&mut out, to);
    write_comma(&mut out);
    let ghost b3 = out@;
    write_key(&mut out, "payload");
    write_bytes(&mut out, payload);
    write_comma(&mut out);
    let ghost b4 = out@;
    write_key(&mut out, "timestamp");
    write_decimal(&mut out, timestamp);
    write_comma(&mut out);
    let ghost b5 = out@;
    write_key(&mut out, "nonce");
    write_quoted(&mut out, nonce);
    write_close(&mut out);
    proof {
        let e6 = last_entry(key_nonce(), quoted(nonce@));
        let e5 = entry(key_timestamp(), decimal(timestamp as nat), e6);
        let e4 = entry(key_payload(), payload@, e5);
        let e3 = entry(key_to(), optional_list(recipients(*to)), e4);
        let e2 = entry(key_from(), quoted(from@), e3);
        let e1 = entry(key_msg_type(), quoted(kind@), e2);
        assert(b0 =~= seq![OPEN_BRACE]);
        lemma_last_entry_written(b5, key_nonce(), quoted(nonce@));
        assert(out@ == b5 + e6);
        lemma_entry_written(b4, key_timestamp(), decimal(timestamp as nat), e6);
        assert(out@ == b4 + e5);
        lemma_entry_written(b3, key_payload(), payload@, e5);
        assert(out@ == b3 + e4);
        lemma_entry_written(b2, key_to(), optional_list(recipients(*to)), e4);
        assert(out@ == b2 + e3);
        lemma_entry_written(b1, key_from(), quoted(from@), e3);
        assert(out@ == b1 + e2);
        lemma_entry_written(b0, key_msg_type(), quoted(kind@), e2);
        assert(out@ == b0 + e1);
    }
    out
}

/// What a message carries: JSON text, kept as it was written.
#[derive(Debug)]
pub struct Payload {
    text: Vec<u8>,
}

impl View for Payload {
    type V = Seq<u8>;

    closed spec fn view(&self) -> Seq<u8> {
        self.text@
    }
}

impl Payload {
    #[verifier::type_invariant]
    spec fn is_valid(&self) -> bool {
        valid_payload(self.text@)
    }

    /// Takes JSON text as a payload. Returns `None` for bytes that are not
    /// one JSON value, or that do not end where their value ends.
    pub fn parse(text: Vec<u8>) -> (payload: Option<Payload>)
        ensures
            match payload {
                Some(p) => p@ == text@ && valid_payload(text@),
                None => !valid_payload(text@),
            },
    {
        if check_delimited(text.as_slice()) && is_json(text.as_slice()) {
            Some(Payload { text })
        } else {
            None
        }
    }

    /// The JSON text of the payload.
    pub fn as_bytes(&self) -> (bytes: &[u8])
        ensures
            bytes@ == self@,
            valid_payload(self@),
    {
        proof {
            use_type_invariant(self);
        }
        self.text.as_slice()
    }
}

impl Clone for Payload {
    fn clone(&self) -> (copy: Self)
        ensures
            copy@ == self@,
    {
        proof {
            use_type_invariant(self);
        }
        Payload { text: slice_to_vec(self.text.as_slice()) }
    }
}

/// Copies a list of strings.
fn copy_strings(items: &Vec<String>) -> (copy: Vec<String>)
    ensures
        texts(copy@) == texts(items@),
{
    let mut copy: Vec<String> = Vec::new();
    let mut i: usize = 0;
    while i < items.len()
        invariant
            i <= items.len(),
            texts(copy@) =~= texts(items@).take(i as int),
        decreases items.len() - i,
    {
        let ghost so_far = texts(copy@);
        copy.push(items[i].clone());
        assert(texts(copy@) =~= so_far.push(items@[i as int]@));
        i += 1;
    }
    assert(texts(items@).take(i as int) =~= texts(items@));
    copy
}

/// One message between two peers.
#[derive(Debug)]
pub struct NetworkMessage {
    pub msg_type: MessageType,
    /// The device that sent the message.
    pub from: String,
    /// The devices that the message is for; `None` for all.
    pub to: Option<Vec<String>>,
    pub payload: Payload,
    /// Unix milliseconds at which the message was made.
    pub timestamp: u64,
    /// An identifier that no other message has.
    pub nonce: String,
}

/// A message as a mathematical value.
pub struct MessageView {
    pub msg_type: MessageType,
    pub from: Seq<char>,
    pub to: Option<Seq<Seq<char>>>,
    pub payload: Seq<u8>,
    pub timestamp: u64,
    pub nonce: Seq<char>,
}

impl View for NetworkMessage {
    type V = MessageView;

    open spec fn view(&self) -> MessageView {
        MessageView {
            msg_type: self.msg_type,
            from: self.from@,
            to: recipients(self.to),
            payload: self.payload@,
            timestamp: self.timestamp,
            nonce: self.nonce@,
        }
    }
}

impl Clone for NetworkMessage {
    fn clone(&self) -> (copy: Self)
        ensures
            copy@ == self@,
    {
        let to = match &self.to {
            Some(list) => Some(copy_strings(list)),
            None => None,
        };
        NetworkMessage {
            msg_type: self.msg_type,
            from: self.from.clone(),
            to,
            payload: self.payload.clone(),
            timestamp: self.timestamp,
            nonce: self.nonce.clone(),
        }
    }
}

/// The envelope of a message: the type by its name.
pub open spec fn envelope_of(m: MessageView) -> Envelope {
    Envelope {
        kind: m.msg_type.name(),
        from: m.from,
        to: m.to,
        payload: m.payload,
        timestamp: m.timestamp,
        nonce: m.nonce,
    }
}

/// The message in an envelope whose type is known.
pub open spec fn message_of(e: Envelope, msg_type: MessageType) -> MessageView {
    MessageView {
        msg_type,
        from: e.from,
        to: e.to,
        payload: e.payload,
        timestamp: e.timestamp,
        nonce: e.nonce,
    }
}

/// The written form of a message.
pub open spec fn message_text(m: MessageView) -> Seq<u8> {
    envelope_text(envelope_of(m))
}

/// Whether `bytes` is the written form of the envelope `e`, and `e` has a
/// valid payload.
pub open spec fn is_envelope_of(e: Envelope, bytes: Seq<u8>) -> bool {
    well_formed(e) && envelope_text(e) == bytes
}

/// What a byte string is read as. Bytes that are the written form of an
/// envelope give the message in it, or `UnknownVariant` where the envelope
/// names no known type; all other bytes give `MalformedPayload`.
pub open spec fn decoding(bytes: Seq<u8>) -> Result<MessageView, CodecError> {
    if exists|e: Envelope| is_envelope_of(e, bytes) {
        let e = choose|e: Envelope| is_envelope_of(e, bytes);
        match MessageType::named(e.kind) {
            Some(msg_type) => Ok(message_of(e, msg_type)),
            None => Err(CodecError::UnknownVariant),
        }
    } else {
        Err(CodecError::MalformedPayload)
    }
}

/// Reading is the inverse of writing: every message with a valid payload is
/// read back from its written form.
pub proof fn lemma_decoding_inverts_encoding(m: MessageView)
    requires
        valid_payload(m.payload),
    ensures
        decoding(message_text(m)) == Ok::<MessageView, CodecError>(m),
{
    let e = envelope_of(m);
    let bytes = message_text(m);
    assert(is_envelope_of(e, bytes));
    let chosen = choose|e: Envelope| is_envelope_of(e, bytes);
    lemma_envelope_text_is_injective(chosen, e);
    lemma_named(m.msg_type);
}

/// Only written forms are read: bytes that are read as a message are what
/// writing that message gives, and its payload is valid.
pub proof fn lemma_decoding_is_exact(bytes: Seq<u8>, m: MessageView)
    requires
        decoding(bytes) == Ok::<MessageView, CodecError>(m),
    ensures
        message_text(m) == bytes,
        valid_payload(m.payload),
{
    let chosen = choose|e: Envelope| is_envelope_of(e, bytes);
    assert(envelope_of(m) == chosen);
}

/// The parts of an envelope that has been read.
struct Parts {
    kind: String,
    from: String,
    to: Option<Vec<String>>,
    payload: Vec<u8>,
    timestamp: u64,
    nonce: String,
}

impl Parts {
    spec fn envelope(&self) -> Envelope {
        Envelope {
            kind: self.kind@,
            from: self.from@,
            to: recipients(self.to),
            payload: self.payload@,
            timestamp: self.timestamp,
            nonce: self.nonce@,
        }
    }
}

/// Reads a byte string as an envelope.
fn read_envelope(bytes: &[u8]) -> (found: Option<Parts>)
    ensures
        match found {
            Some(parts) => envelope_at(bytes@) == Some(parts.envelope()) && is_delimited(
                parts.payload@,
            ),
            None => envelope_at(bytes@) is None,
        },
{
    if bytes.len() == 0 || bytes[0] != OPEN_BRACE {
        return None;
    }
    let (kind, p1) = match read_text_entry(bytes, 1, "msg_type") {
        Some(found) => found,
        None => {
            return None;
        },
    };
    let (from, p2) = match read_text_entry(bytes, p1, "from") {
        Some(found) => found,
        None => {
            return None;
        },
    };
    let (to, p3) = match read_list_entry(bytes, p2, "to") {
        Some(found) => found,
        None => {
            return None;
        },
    };
    let (payload, p4) = match read_value_entry(bytes, p3, "payload") {
        Some(found) => found,
        None => {
            return None;
        },
    };
    let (timestamp, p5) = match read_number_entry(bytes, p4, "timestamp") {
        Some(found) => found,
        None => {
            return None;
        },
    };
    let nonce = match read_last_text_entry(bytes, p5, "nonce") {
        Some(found) => found,
        None => {
            return None;
        },
    };
    Some(Parts { kind, from, to, payload, timestamp, nonce })
}

impl NetworkMessage {
    /// A message to all peers, made now: the time is read from the system
    /// clock, and the nonce is a fresh random identifier.
    pub fn new(msg_type: MessageType, from: String, payload: Payload) -> (message: Self)
        ensures
            message@.msg_type == msg_type,
            message@.from == from@,
            message@.to is None,
            message@.payload == payload@,
            is_uuid_text(message@.nonce),
    {
        let timestamp = unix_millis();
        let nonce = fresh_id();
        NetworkMessage::stamped(msg_type, from, payload, timestamp, nonce)
    }

    /// A message to all peers with the given time and nonce.
    pub fn stamped(
        msg_type: MessageType,
        from: String,
        payload: Payload,
        timestamp: u64,
        nonce: String,
    ) -> (message: Self)
        ensures
            message@ == (MessageView {
                msg_type,
                from: from@,
                to: None,
                payload: payload@,
                timestamp,
                nonce: nonce@,
            }),
    {
        NetworkMessage { msg_type, from, to: None, payload, timestamp, nonce }
    }

    /// Writes the message. What is written is read back as this message.
    pub fn to_bytes(&self) -> (bytes: Vec<u8>)
        ensures
            bytes@ == message_text(self@),
            valid_payload(self@.payload),
            decoding(bytes@) == Ok::<MessageView, CodecError>(self@),
    {
        let payload = self.payload.as_bytes();
        proof {
            lemma_decoding_inverts_encoding(self@);
        }
        write_envelope(
            self.msg_type.as_str(),
            self.from.as_str(),
            &self.to,
            payload,
            self.timestamp,
            self.nonce.as_str(),
        )
    }

    /// Reads a message. Succeeds exactly on the written form of a message;
    /// the written form of an envelope with an unknown type gives
    /// `UnknownVariant`, all other bytes give `MalformedPayload`.
    pub fn from_bytes(bytes: &[u8]) -> (result: Result<NetworkMessage, CodecError>)
        ensures
            match result {
                Ok(message) => decoding(bytes@) == Ok::<MessageView, CodecError>(message@),
                Err(error) => decoding(bytes@) == Err::<MessageView, CodecError>(error),
            },
    {
        let parts = match read_envelope(bytes) {
            Some(parts) => parts,
            None => {
                proof {
                    assert forall|e: Envelope| !is_envelope_of(e, bytes@) by {
                        if is_envelope_of(e, bytes@) {
                            lemma_envelope_at(e);
                        }
                    }
                }
                return Err(CodecError::MalformedPayload);
            },
        };
        let ghost read = parts.envelope();
        let written = write_envelope(
            parts.kind.as_str(),
            parts.from.as_str(),
            &parts.to,
            parts.payload.as_slice(),
            parts.timestamp,
            parts.nonce.as_str(),
        );
        if !same_bytes(written.as_slice(), bytes) || !is_json(parts.payload.as_slice()) {
            proof {
                assert forall|e: Envelope| !is_envelope_of(e, bytes@) by {
                    if is_envelope_of(e, bytes@) {
                        lemma_envelope_at(e);
                    }
                }
            }
            return Err(CodecError::MalformedPayload);
        }
        proof {
            assert(is_envelope_of(read, bytes@));
            let chosen = choose|e: Envelope| is_envelope_of(e, bytes@);
            lemma_envelope_text_is_injective(chosen, read);
        }
        match MessageType::from_name(&parts.kind) {
            Some(msg_type) => Ok(
                NetworkMessage {
                    msg_type,
                    from: parts.from,
                    to: parts.to,
                    payload: Payload { text: parts.payload },
                    timestamp: parts.timestamp,
                    nonce: parts.nonce,
                },
            ),
            None => Err(CodecError::UnknownVariant),
        }
    }
}

/// The key of the one member of a hello payload.
pub open spec fn key_device_id() -> Seq<char> {
    "device_id"@
}

/// The key of the member that holds the copied text.
pub open spec fn key_content() -> Seq<char> {
    "content"@
}

/// The key of the member that holds the id of the clipboard data.
pub open spec fn key_id() -> Seq<char> {
    "id"@
}

/// The payload of a `DeviceHello`: an object with the sender's id.
pub open spec fn hello_text(device_id: Seq<char>) -> Seq<u8> {
    seq![OPEN_BRACE] + last_entry(key_device_id(), quoted(device_id))
}

/// The payload of a `DeviceHello` ends where its value ends.
pub proof fn lemma_hello_is_delimited(device_id: Seq<char>)
    ensures
        is_delimited(hello_text(device_id)),
{
    let open = seq![OPEN_BRACE];
    let body = last_entry(key_device_id(), quoted(device_id));
    lemma_scan_over_byte(OPEN_BRACE, scan_start());
    lemma_scan_quoted(device_id, 1);
    lemma_scan_last_entry(key_device_id(), quoted(device_id), 1);
    lemma_scan_over_joined(open, body, scan_start());
    assert(scan_outside(0) == scan_start());
    lemma_delimited(hello_text(device_id));
}

impl Payload {
    /// The payload of a `DeviceHello` from `device_id`. `None` is returned
    /// only where `serde_json` does not take the text for JSON.
    pub fn hello(device_id: &str) -> (payload: Option<Payload>)
        ensures
            match payload {
                Some(p) => p@ == hello_text(device_id@) && valid_payload(p@),
                None => !json_valid(hello_text(device_id@)),
            },
    {
        proof {
            lemma_hello_is_delimited(device_id@);
        }
        let mut text: Vec<u8> = Vec::new();
        text.push(OPEN_BRACE);
        let ghost b0 = text@;
        write_key(&mut text, "device_id");
        write_quoted(&mut text, device_id);
        write_close(&mut text);
        proof {
            assert(b0 =~= seq![OPEN_BRACE]);
            lemma_last_entry_written(b0, key_device_id(), quoted(device_id@));
        }
        Payload::parse(text)
    }
}

/// What was copied on a device: the text, when it was copied, and an
/// identifier of its own.
#[derive(Debug)]
pub struct ClipboardData {
    pub id: String,
    pub content: String,
    /// Unix milliseconds at which the text was copied.
    pub timestamp: u64,
}

/// Clipboard data as a mathematical value.
pub struct ClipboardView {
    pub id: Seq<char>,
    pub content: Seq<char>,
    pub timestamp: u64,
}

impl View for ClipboardData {
    type V = ClipboardView;

    open spec fn view(&self) -> ClipboardView {
        ClipboardView { id: self.id@, content: self.content@, timestamp: self.timestamp }
    }
}

impl Clone for ClipboardData {
    fn clone(&self) -> (copy: Self)
        ensures
            copy@ == self@,
    {
        ClipboardData {
            id: self.id.clone(),
            content: self.content.clone(),
            timestamp: self.timestamp,
        }
    }
}

/// The payload of a `ClipboardUpdate`: an object with the members `content`,
/// `id` and `timestamp`, in this order.
pub open spec fn clipboard_text(data: ClipboardView) -> Seq<u8> {
    seq![OPEN_BRACE] + entry(
        key_content(),
        quoted(data.content),
        entry(
            key_id(),
            quoted(data.id),
            last_entry(key_timestamp(), decimal(data.timestamp as nat)),
        ),
    )
}

/// The payload of a `ClipboardUpdate` ends where its value ends.
pub proof fn lemma_clipboard_is_delimited(data: ClipboardView)
    ensures
        is_delimited(clipboard_text(data)),
{
    let open = seq![OPEN_BRACE];
    let e3 = last_entry(key_timestamp(), decimal(data.timestamp as nat));
    let e2 = entry(key_id(), quoted(data.id), e3);
    let e1 = entry(key_content(), quoted(data.content), e2);
    lemma_scan_over_byte(OPEN_BRACE, scan_start());
    lemma_scan_decimal(data.timestamp as nat, 1);
    lemma_scan_last_entry(key_timestamp(), decimal(data.timestamp as nat), 1);
    lemma_scan_quoted(data.id, 1);
    lemma_scan_entry(key_id(), quoted(data.id), e3, 1);
    lemma_scan_quoted(data.content, 1);
    lemma_scan_entry(key_content(), quoted(data.content), e2, 1);
    lemma_scan_over_joined(open, e1, scan_start());
    assert(scan_outside(0) == scan_start());
    lemma_delimited(clipboard_text(data));
}

/// Reads a byte string as the payload of a `ClipboardUpdate`.
pub open spec fn clipboard_at(s: Seq<u8>) -> Option<ClipboardView> {
    if s.len() == 0 || s[0] != OPEN_BRACE {
        None
    } else {
        match text_entry_at(s.skip(1), key_content()) {
            Some((content, n1)) => match text_entry_at(s.skip(1 + n1), key_id()) {
                Some((id, n2)) => match last_number_entry_at(
                    s.skip(1 + n1 + n2),
                    key_timestamp(),
                ) {
                    Some(timestamp) => Some(ClipboardView { id, content, timestamp }),
                    None => None,
                },
                None => None,
            },
            None => None,
        }
    }
}

/// Written clipboard data is read back.
pub proof fn lemma_clipboard_at(data: ClipboardView)
    ensures
        clipboard_at(clipboard_text(data)) == Some(data),
{
    let e3 = last_entry(key_timestamp(), decimal(data.timestamp as nat));
    let e2 = entry(key_id(), quoted(data.id), e3);
    let e1 = entry(key_content(), quoted(data.content), e2);
    let s = seq![OPEN_BRACE] + e1;
    assert(s[0] == OPEN_BRACE);
    lemma_skip_joined(seq![OPEN_BRACE], e1);
    lemma_text_entry_at(key_content(), data.content, e2);
    let n1 = e1.len() - e2.len();
    lemma_skip_into(s, 1, e1, n1);
    lemma_text_entry_at(key_id(), data.id, e3);
    let n2 = e2.len() - e3.len();
    lemma_skip_into(s, 1 + n1, e2, n2);
    lemma_last_number_entry_at(key_timestamp(), data.timestamp);
}

/// The clipboard data that a payload text stands for: the data whose written
/// form it is, if there is one.
pub open spec fn clipboard_of(text: Seq<u8>) -> Option<ClipboardView> {
    if exists|data: ClipboardView| clipboard_text(data) == text {
        Some(choose|data: ClipboardView| clipboard_text(data) == text)
    } else {
        None
    }
}

/// Clipboard data is read back from its written form.
pub proof fn lemma_clipboard_of(data: ClipboardView)
    ensures
        clipboard_of(clipboard_text(data)) == Some(data),
{
    let text = clipboard_text(data);
    let chosen = choose|other: ClipboardView| clipboard_text(other) == text;
    lemma_clipboard_at(data);
    lemma_clipboard_at(chosen);
}

/// Writes the payload text of clipboard data.
fn write_clipboard(id: &str, content: &str, timestamp: u64) -> (text: Vec<u8>)
    ensures
        text@ == clipboard_text(ClipboardView { id: id@, content: content@, timestamp }),
{
    let mut text: Vec<u8> = Vec::new();
    text.push(OPEN_BRACE);
    let ghost b0 = text@;
    write_key(&mut text, "content");
    write_quoted(&mut text, content);
    write_comma(&mut text);
    let ghost b1 = text@;
    write_key(&mut text, "id");
    write_quoted(&mut text, id);
    write_comma(&mut text);
    let ghost b2 = text@;
    write_key(&mut text, "timestamp");
    write_decimal(&mut text, timestamp);
    write_close(&mut text);
    proof {
        let e3 = last_entry(key_timestamp(), decimal(timestamp as nat));
        let e2 = entry(key_id(), quoted(id@), e3);
        assert(b0 =~= seq![OPEN_BRACE]);
        lemma_last_entry_written(b2, key_timestamp(), decimal(timestamp as nat));
        assert(text@ == b2 + e3);
        lemma_entry_written(b1, key_id(), quoted(id@), e3);
        assert(text@ == b1 + e2);
        lemma_entry_written(b0, key_content(), quoted(content@), e2);
    }
    text
}

/// Reads a payload text as clipboard data.
fn read_clipboard(bytes: &[u8]) -> (found: Option<ClipboardData>)
    ensures
        match found {
            Some(data) => clipboard_at(bytes@) == Some(data@),
            None => clipboard_at(bytes@) is None,
        },
{
    if bytes.len() == 0 || bytes[0] != OPEN_BRACE {
        return None;
    }
    let (content, p1) = match read_text_entry(bytes, 1, "content") {
        Some(found) => found,
        None => {
            return None;
        },
    };
    let (id, p2) = match read_text_entry(bytes, p1, "id") {
        Some(found) => found,
        None => {
            return None;
        },
    };
    match read_last_number_entry(bytes, p2, "timestamp") {
        Some(timestamp) => Some(ClipboardData { id, content, timestamp }),
        None => None,
    }
}

impl ClipboardData {
    /// Clipboard data for a text that was copied now: the time is read from
    /// the system clock, and the id is a fresh random identifier.
    pub fn new(content: String) -> (data: Self)
        ensures
            data@.content == content@,
            is_uuid_text(data@.id),
    {
        let id = fresh_id();
        let timestamp = unix_millis();
        ClipboardData::stamped(id, content, timestamp)
    }

    /// Clipboard data with the given id and time.
    pub fn stamped(id: String, content: String, timestamp: u64) -> (data: Self)
        ensures
            data@ == (ClipboardView { id: id@, content: content@, timestamp }),
    {
        ClipboardData { id, content, timestamp }
    }

    /// The payload that carries this data. `None` is returned only where
    /// `serde_json` does not take the text for JSON.
    pub fn to_payload(&self) -> (payload: Option<Payload>)
        ensures
            match payload {
                Some(p) => p@ == clipboard_text(self@) && valid_payload(p@) && clipboard_of(p@)
                    == Some(self@),
                None => !json_valid(clipboard_text(self@)),
            },
    {
        proof {
            lemma_clipboard_of(self@);
            lemma_clipboard_is_delimited(self@);
        }
        Payload::parse(write_clipboard(self.id.as_str(), self.content.as_str(), self.timestamp))
    }

    /// The data that a payload carries: succeeds exactly on the payloads that
    /// `to_payload` gives.
    pub fn from_payload(payload: &Payload) -> (found: Option<ClipboardData>)
        ensures
            match found {
                Some(data) => clipboard_of(payload@) == Some(data@),
                None => clipboard_of(payload@) is None,
            },
    {
        let bytes = payload.as_bytes();
        let data = match read_clipboard(bytes) {
            Some(data) => data,
            None => {
                proof {
                    assert forall|other: ClipboardView| clipboard_text(other) != bytes@ by {
                        lemma_clipboard_at(other);
                    }
                }
                return None;
            },
        };
        let written = write_clipboard(data.id.as_str(), data.content.as_str(), data.timestamp);
        if same_bytes(written.as_slice(), bytes) {
            proof {
                let chosen = choose|other: ClipboardView| clipboard_text(other) == bytes@;
                lemma_clipboard_at(chosen);
                lemma_clipboard_at(data@);
            }
            Some(data)
        } else {
            proof {
                assert forall|other: ClipboardView| clipboard_text(other) != bytes@ by {
                    lemma_clipboard_at(other);
                }
            }
            None
        }
    }
}

} // verus!
