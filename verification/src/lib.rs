//! RelayDrop: an encrypted file relay over TCP or WebSocket.
//!
//! The library holds everything the relay and its two kinds of client decide
//! or compute; sockets, files and timers are left to the program around it.

pub mod client;
pub mod crypto;
pub mod framed;
pub mod manifest;
pub mod paths;
pub mod relay;
pub mod text;
pub mod transfer;
pub mod transport;
