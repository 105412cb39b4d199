//! Peer discovery and message exchange on the local network.

pub mod address;
pub mod discovery;
pub mod json;
pub mod message;
pub mod object;
pub mod p2p;
