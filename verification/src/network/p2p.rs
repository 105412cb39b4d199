//! The peer network: frames on a TCP stream, the handler of one connection,
//! and the registry of the peers that have said who they are.
//!
//! Every message travels as a frame: four bytes that give the length of the
//! body, most significant byte first, and then the body. A handler reads
//! frame after frame; the first `DeviceHello` on a connection puts the
//! connection's write half into the registry under the sender's id, and
//! every message that is read is handed on. Whatever cannot be read closes
//! the connection.

use crate::foreign::is_uuid_text;
use crate::network::message::{
    clipboard_text, decoding, hello_text, message_text, valid_payload, ClipboardData,
    ClipboardView, CodecError, MessageType, MessageView, NetworkMessage, Payload,
};
use vstd::prelude::*;

verus! {

/// The TCP port on which peers listen.
pub const P2P_PORT: u16 = 7879;

/// No body of a frame may be longer than this many bytes.
pub const MAX_MESSAGE_LEN: usize = 10_000_000;

/// Milliseconds to wait before asking again for a connection when none was
/// pending.
pub const ACCEPT_RETRY_MILLIS: u64 = 100;

/// The four bytes that give a length, most significant byte first.
pub open spec fn length_prefix(len: nat) -> Seq<u8> {
    seq![
        (len / 0x100_0000 % 0x100) as u8,
        (len / 0x1_0000 % 0x100) as u8,
        (len / 0x100 % 0x100) as u8,
        (len % 0x100) as u8,
    ]
}

/// The length that the four bytes of a header give.
pub open spec fn declared_len(header: Seq<u8>) -> nat {
    (header[0] * 0x100_0000 + header[1] * 0x1_0000 + header[2] * 0x100 + header[3]) as nat
}

/// A body as it travels: its length in four bytes, and the body.
pub open spec fn framed(body: Seq<u8>) -> Seq<u8> {
    length_prefix(body.len()) + body
}

/// The length that a header gives is the length that was written into it.
#[verifier::rlimit(30)]
pub proof fn lemma_declared_len(len: nat)
    requires
        len <= u32::MAX,
    ensures
        length_prefix(len).len() == 4,
        declared_len(length_prefix(len)) == len,
{
}

/// Why a connection was closed, or a frame not taken.
#[derive(Debug, Clone, Copy, PartialEq, Eq, Structural)]
pub enum HandlerError {
    /// A header declared a body of more than [`MAX_MESSAGE_LEN`] bytes.
    OversizedMessage,
    /// A body was not the written form of a message.
    Codec(CodecError),
    /// The connection had been closed before.
    Closed,
}

/// Puts a body into a frame. Returns `None` for a body whose length does not
/// fit into the four bytes of a header.
pub fn frame(body: &[u8]) -> (out: Option<Vec<u8>>)
    ensures
        match out {
            Some(bytes) => body@.len() <= u32::MAX && bytes@ == framed(body@),
            None => body@.len() > u32::MAX,
        },
{
    if body.len() > 0xFFFF_FFFF {
        return None;
    }
    let len = body.len();
    let mut out: Vec<u8> = Vec::new();
    out.push((len / 0x100_0000 % 0x100) as u8);
    out.push((len / 0x1_0000 % 0x100) as u8);
    out.push((len / 0x100 % 0x100) as u8);
    out.push((len % 0x100) as u8);
    let ghost head = out@;
    assert(head =~= length_prefix(body@.len()));
    let mut i: usize = 0;
    assert(body@.take(0) =~= Seq::<u8>::empty());
    while i < body.len()
        invariant
            i <= body.len(),
            out@ =~= head + body@.take(i as int),
        decreases body.len() - i,
    {
        out.push(body[i]);
        i += 1;
    }
    assert(body@.take(i as int) =~= body@);
    Some(out)
}

/// Reads the header of a frame. Returns the length of the body that follows,
/// or `OversizedMessage` where the header declares more than
/// [`MAX_MESSAGE_LEN`] bytes.
pub fn frame_length(header: &[u8; 4]) -> (len: Result<usize, HandlerError>)
    ensures
        match len {
            Ok(n) => n == declared_len(header@) && n <= MAX_MESSAGE_LEN,
            Err(error) => error == HandlerError::OversizedMessage && declared_len(header@)
                > MAX_MESSAGE_LEN,
        },
{
    let high: u32 = (header[0] as u32) * 0x100_0000 + (header[1] as u32) * 0x1_0000;
    let low: u32 = (header[2] as u32) * 0x100 + (header[3] as u32);
    let declared: usize = (high + low) as usize;
    if declared > MAX_MESSAGE_LEN {
        Err(HandlerError::OversizedMessage)
    } else {
        Ok(declared)
    }
}

/// How far a connection has come.
#[derive(Debug, Clone, Copy, PartialEq, Eq, Structural)]
pub enum ConnectionState {
    /// An outbound connection that is being opened.
    Connecting,
    /// The connection is open; the peer has not said who it is.
    HandshakePending,
    /// The peer has sent a `DeviceHello`.
    Identified,
    /// The connection has been given up.
    Closed,
}

/// One connection as its handler sees it.
#[derive(Debug)]
pub struct Connection {
    state: ConnectionState,
    peer: Option<String>,
    writer: Option<u64>,
}

impl Connection {
    /// How far the connection has come.
    pub closed spec fn state(&self) -> ConnectionState {
        self.state
    }

    /// The id of the peer, once it has sent a `DeviceHello`.
    pub closed spec fn peer(&self) -> Option<Seq<char>> {
        match self.peer {
            Some(id) => Some(id@),
            None => None,
        }
    }

    /// The handle under which the caller keeps the write half of the
    /// connection, if it has one.
    pub closed spec fn writer(&self) -> Option<u64> {
        self.writer
    }

    /// A connection that a listener has accepted. `writer` is the handle of
    /// its write half, or `None` where the stream could not be duplicated.
    pub fn accepted(writer: Option<u64>) -> (connection: Self)
        ensures
            connection.state() == ConnectionState::HandshakePending,
            connection.peer() is None,
            connection.writer() == writer,
    {
        Connection { state: ConnectionState::HandshakePending, peer: None, writer }
    }

    /// An outbound connection that is being opened.
    pub fn outbound(writer: Option<u64>) -> (connection: Self)
        ensures
            connection.state() == ConnectionState::Connecting,
            connection.peer() is None,
            connection.writer() == writer,
    {
        Connection { state: ConnectionState::Connecting, peer: None, writer }
    }

    /// The outbound connection stands: from `Connecting` the state goes to
    /// `HandshakePending`; every other state stays.
    pub fn connected(&mut self)
        ensures
            final(self).state() == if old(self).state() == ConnectionState::Connecting {
                ConnectionState::HandshakePending
            } else {
                old(self).state()
            },
            final(self).peer() == old(self).peer(),
            final(self).writer() == old(self).writer(),
    {
        if self.state == ConnectionState::Connecting {
            self.state = ConnectionState::HandshakePending;
        }
    }

    /// How far the connection has come.
    pub fn current_state(&self) -> (state: ConnectionState)
        ensures
            state == self.state(),
    {
        self.state
    }

    /// Whether the handler has given the connection up.
    pub fn is_closed(&self) -> (closed: bool)
        ensures
            closed == (self.state() == ConnectionState::Closed),
    {
        self.state == ConnectionState::Closed
    }

    /// The id of the peer, once it has sent a `DeviceHello`.
    pub fn peer_id(&self) -> (id: Option<String>)
        ensures
            match id {
                Some(text) => self.peer() == Some(text@),
                None => self.peer() is None,
            },
    {
        match &self.peer {
            Some(id) => Some(id.clone()),
            None => None,
        }
    }

    /// The handle of the connection's write half, if it has one.
    pub fn write_half(&self) -> (handle: Option<u64>)
        ensures
            handle == self.writer(),
    {
        self.writer
    }

    /// A read failed or the stream ended: the connection is closed.
    pub fn read_failed(&mut self)
        ensures
            final(self).state() == ConnectionState::Closed,
            final(self).peer() == old(self).peer(),
            final(self).writer() == old(self).writer(),
    {
        self.state = ConnectionState::Closed;
    }

    /// Takes in the header of a frame. Returns the length of the body to read
    /// next. A header that declares more than [`MAX_MESSAGE_LEN`] bytes
    /// closes the connection, so that no byte of such a body is read; on a
    /// closed connection nothing is read any more.
    pub fn header_read(&mut self, header: &[u8; 4]) -> (len: Result<usize, HandlerError>)
        ensures
            final(self).peer() == old(self).peer(),
            final(self).writer() == old(self).writer(),
            (final(self).state(), len) == after_header(old(self).state(), header@),
    {
        if self.state == ConnectionState::Closed {
            return Err(HandlerError::Closed);
        }
        match frame_length(header) {
            Ok(len) => Ok(len),
            Err(error) => {
                self.state = ConnectionState::Closed;
                Err(error)
            },
        }
    }
}

/// The state of a connection after the header of a frame, and what its
/// handler does next: read a body of the declared length, or stop, because
/// the connection was closed before or the header declares too long a body.
pub open spec fn after_header(state: ConnectionState, header: Seq<u8>) -> (
    ConnectionState,
    Result<usize, HandlerError>,
) {
    if state == ConnectionState::Closed {
        (ConnectionState::Closed, Err(HandlerError::Closed))
    } else if declared_len(header) > MAX_MESSAGE_LEN {
        (ConnectionState::Closed, Err(HandlerError::OversizedMessage))
    } else {
        (state, Ok(declared_len(header) as usize))
    }
}

/// The header of a frame announces its body: on an open connection, the
/// header of a framed body of at most [`MAX_MESSAGE_LEN`] bytes asks for
/// exactly the bytes of the body, and leaves the connection as it is.
pub proof fn lemma_frame_is_taken(state: ConnectionState, body: Seq<u8>)
    requires
        state != ConnectionState::Closed,
        body.len() <= MAX_MESSAGE_LEN,
    ensures
        after_header(state, framed(body).take(4)) == (
            state,
            Ok::<usize, HandlerError>(body.len() as usize),
        ),
        framed(body).skip(4) == body,
{
    lemma_declared_len(body.len());
    assert(framed(body).take(4) =~= length_prefix(body.len()));
    assert(framed(body).skip(4) =~= body);
}

/// A closed connection stays closed: neither a header nor a body brings it
/// back, and neither changes the registry.
pub proof fn lemma_closed_stays_closed(
    connections: Seq<PeerView>,
    peer: Option<Seq<char>>,
    writer: Option<u64>,
    bytes: Seq<u8>,
)
    ensures
        after_header(ConnectionState::Closed, bytes).0 == ConnectionState::Closed,
        after_body(connections, ConnectionState::Closed, peer, writer, bytes).state
            == ConnectionState::Closed,
        after_body(connections, ConnectionState::Closed, peer, writer, bytes).connections
            == connections,
{
}

/// An entry of the registry: a peer and the handle of the write half of its
/// connection.
#[derive(Debug)]
pub struct PeerConnection {
    pub peer_id: String,
    pub handle: u64,
}

/// An entry of the registry as a mathematical value.
pub struct PeerView {
    pub peer_id: Seq<char>,
    pub handle: u64,
}

impl View for PeerConnection {
    type V = PeerView;

    open spec fn view(&self) -> PeerView {
        PeerView { peer_id: self.peer_id@, handle: self.handle }
    }
}

/// The entries of a list, as mathematical values.
pub open spec fn peer_views(entries: Seq<PeerConnection>) -> Seq<PeerView> {
    entries.map_values(|e: PeerConnection| e@)
}

/// `entries[i]` is the first entry for `peer`.
pub open spec fn first_of_peer(entries: Seq<PeerView>, peer: Seq<char>, i: int) -> bool {
    &&& 0 <= i < entries.len()
    &&& entries[i].peer_id == peer
    &&& forall|j: int| 0 <= j < i ==> entries[j].peer_id != peer
}

/// The registry after `peer` has been registered with `handle`: the handle
/// takes the place of the one that the peer had, or the peer is added.
pub open spec fn registered(entries: Seq<PeerView>, peer: Seq<char>, handle: u64) -> Seq<
    PeerView,
> {
    let entry = PeerView { peer_id: peer, handle };
    if exists|i: int| first_of_peer(entries, peer, i) {
        entries.update(choose|i: int| first_of_peer(entries, peer, i), entry)
    } else {
        entries.push(entry)
    }
}

/// No two entries of the registry are for the same peer.
pub open spec fn distinct_peers(entries: Seq<PeerView>) -> bool {
    forall|i: int, j: int|
        0 <= i < entries.len() && 0 <= j < entries.len() && i != j ==> entries[i].peer_id
            != entries[j].peer_id
}

/// The handles of the entries, in their order.
pub open spec fn handles(entries: Seq<PeerView>) -> Seq<u64> {
    entries.map_values(|e: PeerView| e.handle)
}

/// A registry with an entry for `peer` has a first one.
proof fn lemma_has_first_of_peer(entries: Seq<PeerView>, peer: Seq<char>, i: int)
    requires
        0 <= i < entries.len(),
        entries[i].peer_id == peer,
    ensures
        exists|k: int| first_of_peer(entries, peer, k),
    decreases i,
{
    if exists|j: int| 0 <= j < i && entries[j].peer_id == peer {
        let j = choose|j: int| 0 <= j < i && entries[j].peer_id == peer;
        lemma_has_first_of_peer(entries, peer, j);
    } else {
        assert(first_of_peer(entries, peer, i));
    }
}

/// Registering a peer puts it into the registry with its handle, leaves
/// every other peer as it was, and keeps the peers distinct.
pub proof fn lemma_registered(entries: Seq<PeerView>, peer: Seq<char>, handle: u64)
    ensures
        registered(entries, peer, handle).contains(PeerView { peer_id: peer, handle }),
        forall|i: int|
            0 <= i < entries.len() && (#[trigger] entries[i]).peer_id != peer ==> registered(
                entries,
                peer,
                handle,
            ).contains(entries[i]),
        forall|i: int|
            0 <= i < registered(entries, peer, handle).len() ==> (#[trigger] registered(
                entries,
                peer,
                handle,
            )[i]) == (PeerView { peer_id: peer, handle }) || entries.contains(
                registered(entries, peer, handle)[i],
            ),
        distinct_peers(entries) ==> distinct_peers(registered(entries, peer, handle)),
{
    let entry = PeerView { peer_id: peer, handle };
    let after = registered(entries, peer, handle);
    if exists|i: int| first_of_peer(entries, peer, i) {
        let at = choose|i: int| first_of_peer(entries, peer, i);
        assert(after == entries.update(at, entry));
        assert(after[at] == entry);
        assert forall|i: int|
            0 <= i < entries.len() && (#[trigger] entries[i]).peer_id != peer implies after.contains(
            entries[i],
        ) by {
            assert(after[i] == entries[i]);
        }
        assert forall|i: int| 0 <= i < after.len() implies (#[trigger] after[i]) == entry
            || entries.contains(after[i]) by {
            if i != at {
                assert(entries[i] == after[i]);
            }
        }
    } else {
        assert(after == entries.push(entry));
        assert(after[entries.len() as int] == entry);
        assert forall|i: int| 0 <= i < entries.len() implies entries[i].peer_id != peer by {
            if entries[i].peer_id == peer {
                lemma_has_first_of_peer(entries, peer, i);
            }
        }
        assert forall|i: int|
            0 <= i < entries.len() && (#[trigger] entries[i]).peer_id != peer implies after.contains(
            entries[i],
        ) by {
            assert(after[i] == entries[i]);
        }
        assert forall|i: int| 0 <= i < after.len() implies (#[trigger] after[i]) == entry
            || entries.contains(after[i]) by {
            if i < entries.len() {
                assert(entries[i] == after[i]);
            }
        }
    }
}

/// Registers `peer` with `handle` in `entries`.
fn register(entries: &mut Vec<PeerConnection>, peer: String, handle: u64)
    ensures
        peer_views(final(entries)@) == registered(peer_views(old(entries)@), peer@, handle),
{
    let ghost before = peer_views(entries@);
    let mut i: usize = 0;
    while i < entries.len()
        invariant
            i <= entries.len(),
            peer_views(entries@) == before,
            before == peer_views(old(entries)@),
            forall|j: int| 0 <= j < i ==> before[j].peer_id != peer@,
        decreases entries.len() - i,
    {
        if entries[i].peer_id == peer {
            assert(first_of_peer(before, peer@, i as int));
            let ghost chosen = choose|k: int| first_of_peer(before, peer@, k);
            assert(first_of_peer(before, peer@, chosen));
            assert(chosen == i);
            entries.set(i, PeerConnection { peer_id: peer, handle });
            assert(peer_views(entries@) =~= before.update(
                i as int,
                PeerView { peer_id: peer@, handle },
            ));
            return ;
        }
        i += 1;
    }
    assert forall|k: int| !first_of_peer(before, peer@, k) by {}
    entries.push(PeerConnection { peer_id: peer, handle });
    assert(peer_views(entries@) =~= before.push(PeerView { peer_id: peer@, handle }));
}

/// What came of asking the listener for a connection.
#[derive(Debug, Clone, Copy, PartialEq, Eq, Structural)]
pub enum Accepted {
    /// A peer has connected. `writer` is the handle of the write half of
    /// the stream, or `None` where the stream could not be duplicated.
    Stream { writer: Option<u64> },
    /// No connection was pending.
    WouldBlock,
    /// The listener reported an error.
    Failed,
}

/// What the accept loop does next.
#[derive(Debug)]
pub enum AcceptStep {
    /// Hand the new connection to a handler of its own, and ask again.
    Serve(Connection),
    /// Wait this many milliseconds, and ask again.
    Wait(u64),
    /// Ask again at once.
    Retry,
}

/// Decides what the accept loop does with what the listener gave: a new
/// connection gets a handler, an empty queue is waited out for
/// [`ACCEPT_RETRY_MILLIS`], and an error is passed over.
pub fn accept_step(accepted: Accepted) -> (step: AcceptStep)
    ensures
        match accepted {
            Accepted::Stream { writer } => step matches AcceptStep::Serve(connection)
                && connection.state() == ConnectionState::HandshakePending && connection.peer()
                is None && connection.writer() == writer,
            Accepted::WouldBlock => step matches AcceptStep::Wait(millis) && millis
                == ACCEPT_RETRY_MILLIS,
            Accepted::Failed => step is Retry,
        },
{
    match accepted {
        Accepted::Stream { writer } => AcceptStep::Serve(Connection::accepted(writer)),
        Accepted::WouldBlock => AcceptStep::Wait(ACCEPT_RETRY_MILLIS),
        Accepted::Failed => AcceptStep::Retry,
    }
}

/// What to send to the peers: one frame, and the handles of the connections
/// to write it to.
#[derive(Debug)]
pub struct Broadcast {
    pub frame: Vec<u8>,
    pub targets: Vec<u64>,
}

/// Why nothing can be sent.
#[derive(Debug, Clone, Copy, PartialEq, Eq, Structural)]
pub enum SendError {
    /// The text that stands for the message's payload is no valid payload.
    InvalidPayload,
    /// The written message does not fit into a frame.
    TooLong,
}

/// The `DeviceHello` of `device_id`, made at `timestamp` with `nonce`.
pub open spec fn hello_message(
    device_id: Seq<char>,
    timestamp: u64,
    nonce: Seq<char>,
) -> MessageView {
    MessageView {
        msg_type: MessageType::DeviceHello,
        from: device_id,
        to: None,
        payload: hello_text(device_id),
        timestamp,
        nonce,
    }
}

/// The `ClipboardUpdate` of `device_id` that carries `data`, made at
/// `timestamp` with `nonce`.
pub open spec fn clipboard_message(
    device_id: Seq<char>,
    data: ClipboardView,
    timestamp: u64,
    nonce: Seq<char>,
) -> MessageView {
    MessageView {
        msg_type: MessageType::ClipboardUpdate,
        from: device_id,
        to: None,
        payload: clipboard_text(data),
        timestamp,
        nonce,
    }
}

/// What sending a message comes to: its frame, or the reason why there is
/// none.
pub open spec fn frame_of(message: MessageView) -> Result<Seq<u8>, SendError> {
    if !valid_payload(message.payload) {
        Err(SendError::InvalidPayload)
    } else if message_text(message).len() > u32::MAX {
        Err(SendError::TooLong)
    } else {
        Ok(framed(message_text(message)))
    }
}

/// Whether `sent` is what sending `message` comes to.
pub open spec fn is_frame_of(sent: Result<Vec<u8>, SendError>, message: MessageView) -> bool {
    match sent {
        Ok(bytes) => frame_of(message) == Ok::<Seq<u8>, SendError>(bytes@),
        Err(error) => frame_of(message) == Err::<Seq<u8>, SendError>(error),
    }
}

/// Whether `sent` is what broadcasting `message` to `targets` comes to: the
/// frame of the message for all the targets, or the reason why there is no
/// frame.
pub open spec fn is_broadcast_of(
    sent: Result<Broadcast, SendError>,
    message: MessageView,
    targets: Seq<u64>,
) -> bool {
    match sent {
        Ok(broadcast) => frame_of(message) == Ok::<Seq<u8>, SendError>(broadcast.frame@)
            && broadcast.targets@ == targets,
        Err(error) => frame_of(message) == Err::<Seq<u8>, SendError>(error),
    }
}

/// Writes a message and puts it into a frame.
pub fn frame_message(message: &NetworkMessage) -> (sent: Result<Vec<u8>, SendError>)
    ensures
        is_frame_of(sent, message@),
        sent is Err ==> sent == Err::<Vec<u8>, SendError>(SendError::TooLong),
{
    let body = message.to_bytes();
    match frame(body.as_slice()) {
        Some(bytes) => Ok(bytes),
        None => Err(SendError::TooLong),
    }
}

/// The frame with the `DeviceHello` of `device_id`, made at `timestamp` with
/// `nonce`.
pub fn hello_frame(device_id: &str, timestamp: u64, nonce: String) -> (sent: Result<
    Vec<u8>,
    SendError,
>)
    ensures
        is_frame_of(sent, hello_message(device_id@, timestamp, nonce@)),
{
    match Payload::hello(device_id) {
        Some(payload) => {
            let message = NetworkMessage::stamped(
                MessageType::DeviceHello,
                String::from_str(device_id),
                payload,
                timestamp,
                nonce,
            );
            frame_message(&message)
        },
        None => Err(SendError::InvalidPayload),
    }
}

/// The frame with the `ClipboardUpdate` of `device_id` that carries `data`,
/// made at `timestamp` with `nonce`.
pub fn clipboard_frame(
    device_id: &str,
    data: &ClipboardData,
    timestamp: u64,
    nonce: String,
) -> (sent: Result<Vec<u8>, SendError>)
    ensures
        is_frame_of(sent, clipboard_message(device_id@, data@, timestamp, nonce@)),
{
    match data.to_payload() {
        Some(payload) => {
            let message = NetworkMessage::stamped(
                MessageType::ClipboardUpdate,
                String::from_str(device_id),
                payload,
                timestamp,
                nonce,
            );
            frame_message(&message)
        },
        None => Err(SendError::InvalidPayload),
    }
}

/// The peer network of one device: its identity, the registry of identified
/// connections, and whether its listener should be running.
pub struct P2PNetwork {
    device_id: String,
    connections: Vec<PeerConnection>,
    is_running: bool,
}

impl P2PNetwork {
    /// No peer is registered twice.
    #[verifier::type_invariant]
    spec fn well_formed(&self) -> bool {
        distinct_peers(peer_views(self.connections@))
    }

    /// The identity of this device.
    pub closed spec fn own_id(&self) -> Seq<char> {
        self.device_id@
    }

    /// The registry: the identified peers and the handles of their
    /// connections.
    pub closed spec fn connections(&self) -> Seq<PeerView> {
        peer_views(self.connections@)
    }

    /// Whether the network has been started and not stopped since.
    pub closed spec fn running(&self) -> bool {
        self.is_running
    }

    /// A stopped network with an empty registry.
    pub fn new(device_id: String) -> (network: Self)
        ensures
            network.own_id() == device_id@,
            network.connections() == Seq::<PeerView>::empty(),
            !network.running(),
    {
        let network = P2PNetwork { device_id, connections: Vec::new(), is_running: false };
        assert(network.connections() =~= Seq::<PeerView>::empty());
        network
    }

    /// Marks the network as running. Returns whether it was stopped before,
    /// that is whether a listener has to be set going; starting a running
    /// network changes nothing.
    pub fn start(&mut self) -> (launch: bool)
        ensures
            final(self).running(),
            launch == !old(self).running(),
            final(self).own_id() == old(self).own_id(),
            final(self).connections() == old(self).connections(),
    {
        proof {
            use_type_invariant(&*self);
        }
        let launch = !self.is_running;
        self.is_running = true;
        launch
    }

    /// Marks the network as stopped and empties the registry. Returns the
    /// handles of the connections that were registered, for the caller to
    /// drop.
    pub fn stop(&mut self) -> (dropped: Vec<u64>)
        ensures
            !final(self).running(),
            final(self).connections() == Seq::<PeerView>::empty(),
            final(self).own_id() == old(self).own_id(),
            dropped@ == handles(old(self).connections()),
    {
        let dropped = self.targets();
        self.is_running = false;
        self.connections = Vec::new();
        assert(self.connections() =~= Seq::<PeerView>::empty());
        dropped
    }

    /// Whether the network is running.
    pub fn is_running(&self) -> (running: bool)
        ensures
            running == self.running(),
    {
        self.is_running
    }

    /// The handles of the registered connections, in the order of the
    /// registry. No peer is registered twice.
    pub fn targets(&self) -> (targets: Vec<u64>)
        ensures
            targets@ == handles(self.connections()),
            distinct_peers(self.connections()),
    {
        proof {
            use_type_invariant(self);
        }
        let mut targets: Vec<u64> = Vec::new();
        let mut i: usize = 0;
        while i < self.connections.len()
            invariant
                i <= self.connections.len(),
                targets@ =~= handles(peer_views(self.connections@)).take(i as int),
            decreases self.connections.len() - i,
        {
            targets.push(self.connections[i].handle);
            i += 1;
        }
        assert(handles(peer_views(self.connections@)).take(i as int) =~= handles(
            peer_views(self.connections@),
        ));
        targets
    }

    /// The handle under which `peer` is registered, if it is.
    pub fn connection_of(&self, peer: &str) -> (handle: Option<u64>)
        ensures
            match handle {
                Some(h) => exists|i: int|
                    first_of_peer(self.connections(), peer@, i) && self.connections()[i].handle
                        == h,
                None => forall|i: int|
                    0 <= i < self.connections().len() ==> (#[trigger] self.connections()[i]).peer_id
                        != peer@,
            },
    {
        let wanted = String::from_str(peer);
        let mut i: usize = 0;
        while i < self.connections.len()
            invariant
                i <= self.connections.len(),
                wanted@ == peer@,
                forall|j: int| 0 <= j < i ==> peer_views(self.connections@)[j].peer_id != peer@,
            decreases self.connections.len() - i,
        {
            if self.connections[i].peer_id == wanted {
                assert(first_of_peer(self.connections(), peer@, i as int));
                return Some(self.connections[i].handle);
            }
            i += 1;
        }
        None
    }

    /// What an initiator sends as soon as its connection stands: the frame
    /// with this device's `DeviceHello`, made now with a fresh nonce.
    pub fn connect_to_peer(&self) -> (sent: Result<Vec<u8>, SendError>)
        ensures
            exists|timestamp: u64, nonce: Seq<char>|
                is_uuid_text(nonce) && #[trigger] is_frame_of(
                    sent,
                    hello_message(self.own_id(), timestamp, nonce),
                ),
    {
        match Payload::hello(self.device_id.as_str()) {
            Some(payload) => {
                let message = NetworkMessage::new(
                    MessageType::DeviceHello,
                    self.device_id.clone(),
                    payload,
                );
                let sent = frame_message(&message);
                assert(message@ == hello_message(
                    self.own_id(),
                    message@.timestamp,
                    message@.nonce,
                ));
                sent
            },
            None => {
                let sent = Err(SendError::InvalidPayload);
                proof {
                    lemma_arbitrary_uuid();
                }
                assert(is_frame_of(sent, hello_message(self.own_id(), 0, arbitrary_uuid())));
                sent
            },
        }
    }

    /// What is sent to the peers for a text that was copied: the frame with
    /// a `ClipboardUpdate` that carries the text, made now with a fresh id
    /// and nonce, and the handles of all registered connections. The caller
    /// writes the frame to each of them; a write that fails is passed over.
    pub fn broadcast_clipboard(&self, content: String) -> (sent: Result<Broadcast, SendError>)
        ensures
            exists|data: ClipboardView, timestamp: u64, nonce: Seq<char>|
                data.content == content@ && is_uuid_text(data.id) && is_uuid_text(nonce)
                    && #[trigger] is_broadcast_of(
                    sent,
                    clipboard_message(self.own_id(), data, timestamp, nonce),
                    handles(self.connections()),
                ),
    {
        let data = ClipboardData::new(content);
        match data.to_payload() {
            Some(payload) => {
                let message = NetworkMessage::new(
                    MessageType::ClipboardUpdate,
                    self.device_id.clone(),
                    payload,
                );
                assert(message@ == clipboard_message(
                    self.own_id(),
                    data@,
                    message@.timestamp,
                    message@.nonce,
                ));
                let sent = match frame_message(&message) {
                    Ok(frame) => Ok(Broadcast { frame, targets: self.targets() }),
                    Err(error) => Err(error),
                };
                assert(is_broadcast_of(
                    sent,
                    clipboard_message(self.own_id(), data@, message@.timestamp, message@.nonce),
                    handles(self.connections()),
                ));
                sent
            },
            None => {
                proof {
                    lemma_arbitrary_uuid();
                }
                let sent = Err(SendError::InvalidPayload);
                assert(is_broadcast_of(
                    sent,
                    clipboard_message(self.own_id(), data@, 0, arbitrary_uuid()),
                    handles(self.connections()),
                ));
                sent
            },
        }
    }

    /// Takes in the body of a frame that was read on `connection`. The body
    /// is read as a message. A `DeviceHello` identifies the peer and, where
    /// the connection has a write half, registers that under the sender's
    /// id; the message is returned, to be handed on. A body that is no
    /// message closes the connection.
    pub fn handle_connection(
        &mut self,
        connection: &mut Connection,
        body: &[u8],
    ) -> (handled: Result<NetworkMessage, HandlerError>)
        ensures
            final(self).own_id() == old(self).own_id(),
            final(self).running() == old(self).running(),
            final(connection).writer() == old(connection).writer(),
            after_body(
                old(self).connections(),
                old(connection).state(),
                old(connection).peer(),
                old(connection).writer(),
                body@,
            ) == (Handled {
                connections: final(self).connections(),
                state: final(connection).state(),
                peer: final(connection).peer(),
                outcome: match handled {
                    Ok(message) => Ok(message@),
                    Err(error) => Err(error),
                },
            }),
    {
        if connection.state == ConnectionState::Closed {
            return Err(HandlerError::Closed);
        }
        match NetworkMessage::from_bytes(body) {
            Ok(message) => {
                if message.msg_type == MessageType::DeviceHello {
                    match connection.writer {
                        Some(handle) => {
                            proof {
                                use_type_invariant(&*self);
                                lemma_registered(self.connections(), message.from@, handle);
                            }
                            let mut entries: Vec<PeerConnection> = Vec::new();
                            std::mem::swap(&mut entries, &mut self.connections);
                            register(&mut entries, message.from.clone(), handle);
                            self.connections = entries;
                        },
                        None => {},
                    }
                    connection.state = ConnectionState::Identified;
                    connection.peer = Some(message.from.clone());
                }
                Ok(message)
            },
            Err(error) => {
                connection.state = ConnectionState::Closed;
                Err(HandlerError::Codec(error))
            },
        }
    }
}

/// A handler's world after one body: the registry, the connection's state and
/// peer, and what the handler returns.
pub struct Handled {
    pub connections: Seq<PeerView>,
    pub state: ConnectionState,
    pub peer: Option<Seq<char>>,
    pub outcome: Result<MessageView, HandlerError>,
}

/// What a handler makes of the body of a frame. On a closed connection
/// nothing happens. A body that is read as a message is handed on; if the
/// message is a `DeviceHello`, the connection is identified with the sender,
/// and its write half, if it has one, is registered under the sender's id. A
/// body that is no message closes the connection.
pub open spec fn after_body(
    connections: Seq<PeerView>,
    state: ConnectionState,
    peer: Option<Seq<char>>,
    writer: Option<u64>,
    body: Seq<u8>,
) -> Handled {
    if state == ConnectionState::Closed {
        Handled { connections, state, peer, outcome: Err(HandlerError::Closed) }
    } else {
        match decoding(body) {
            Ok(message) => if message.msg_type == MessageType::DeviceHello {
                Handled {
                    connections: match writer {
                        Some(handle) => registered(connections, message.from, handle),
                        None => connections,
                    },
                    state: ConnectionState::Identified,
                    peer: Some(message.from),
                    outcome: Ok(message),
                }
            } else {
                Handled { connections, state, peer, outcome: Ok(message) }
            },
            Err(error) => Handled {
                connections,
                state: ConnectionState::Closed,
                peer,
                outcome: Err(HandlerError::Codec(error)),
            },
        }
    }
}

/// Some text in the form of a UUID.
pub open spec fn arbitrary_uuid() -> Seq<char> {
    Seq::new(
        36,
        |i: int|
            if i == 8 || i == 13 || i == 18 || i == 23 {
                '-'
            } else {
                '0'
            },
    )
}

proof fn lemma_arbitrary_uuid()
    ensures
        is_uuid_text(arbitrary_uuid()),
{
}

} // verus!
