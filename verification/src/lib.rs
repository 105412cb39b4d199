//! Serverless clipboard sharing between the devices of one local network.
//!
//! The crate holds the decisions of the system: what a discovery datagram
//! says and what it does to the peer registry, how messages are laid out on the
//! wire, what a connection handler does with each frame, and when a clipboard
//! reading counts as a change. Sockets, threads and the operating system's
//! clipboard stay with the caller, which hands over what it read and carries
//! out what it is told.

pub mod clipboard;
pub mod foreign;
pub mod network;
pub mod sync;
