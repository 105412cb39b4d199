//! The coordinator that ties the parts together: whether the device is
//! syncing, and what an incoming message means for the local clipboard.

use crate::network::message::{clipboard_of, ClipboardData, MessageType, MessageView, NetworkMessage};
use vstd::prelude::*;

verus! {

/// The text that a message asks to put on the clipboard: the content that a
/// `ClipboardUpdate` carries. Messages of other types, and a `ClipboardUpdate`
/// whose payload is not clipboard data, ask for nothing.
pub open spec fn text_for_clipboard(message: MessageView) -> Option<Seq<char>> {
    if message.msg_type == MessageType::ClipboardUpdate {
        match clipboard_of(message.payload) {
            Some(data) => Some(data.content),
            None => None,
        }
    } else {
        None
    }
}

/// The text that an incoming message asks to put on the clipboard, if any.
pub fn incoming_text(message: &NetworkMessage) -> (text: Option<String>)
    ensures
        match text {
            Some(content) => text_for_clipboard(message@) == Some(content@),
            None => text_for_clipboard(message@) is None,
        },
{
    if message.msg_type == MessageType::ClipboardUpdate {
        match ClipboardData::from_payload(&message.payload) {
            Some(data) => Some(data.content),
            None => None,
        }
    } else {
        None
    }
}

/// Whether the device is syncing its clipboard with its peers.
pub struct SyncState {
    is_syncing: bool,
}

impl SyncState {
    /// Whether syncing is switched on.
    pub closed spec fn syncing(&self) -> bool {
        self.is_syncing
    }

    /// A device that is not syncing.
    pub fn new() -> (state: Self)
        ensures
            !state.syncing(),
    {
        SyncState { is_syncing: false }
    }

    /// Switches syncing on. Returns whether it was off before, that is
    /// whether the monitor and the network have to be started; on a device
    /// that is syncing nothing changes.
    pub fn start_sync(&mut self) -> (launch: bool)
        ensures
            final(self).syncing(),
            launch == !old(self).syncing(),
    {
        let launch = !self.is_syncing;
        self.is_syncing = true;
        launch
    }

    /// Switches syncing off. Returns whether it was on before, that is
    /// whether the monitor and the network have to be stopped; on a device
    /// that is not syncing nothing changes.
    pub fn stop_sync(&mut self) -> (halt: bool)
        ensures
            !final(self).syncing(),
            halt == old(self).syncing(),
    {
        let halt = self.is_syncing;
        self.is_syncing = false;
        halt
    }

    /// Whether syncing is switched on.
    pub fn is_syncing(&self) -> (syncing: bool)
        ensures
            syncing == self.syncing(),
    {
        self.is_syncing
    }
}

} // verus!
