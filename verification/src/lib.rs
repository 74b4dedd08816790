//! Verified core of an Engine.IO / Socket.IO messaging stack.
//!
//! The crate holds the protocol logic: the packet codecs (text framing and
//! binary-attachment assembly), session-id generation, the server's rooms and
//! clients index, the per-socket acknowledgment ledger, the reconnect policy,
//! and the polling-transport URL and body handling. The surrounding I/O
//! (HTTP requests, channels, task scheduling) lives outside this crate and
//! exchanges plain values with it.
use vstd::prelude::*;

pub mod b64;
pub mod engine;
pub mod packet;
pub mod reconnect;
pub mod server;
pub mod sid;
pub mod socket;
pub mod transport;
pub mod util;

verus! {

/// Error taxonomy of the stack. Decoding failures surface as `InvalidPacket`;
/// transport failures carry the HTTP status; operations on a torn-down
/// connection fail with `ConnectionClosed`.
#[derive(Clone, Copy, Debug, PartialEq, Eq, Structural)]
pub enum Error {
    InvalidPacket,
    InvalidUrl,
    InvalidHttpResponseStatus(u16),
    ConnectionClosed,
    AckTimeout,
    IncompleteResponseFromEngineIo,
    SendError,
    ReconnectFailed,
    HandshakeFailed,
}

} // verus!
