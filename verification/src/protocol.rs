//! The network handshake messages of the wider system.
//!
//! A separate subsystem with no data dependency on the storage engine: the
//! message shapes live here so both sides can agree on them, and nothing in
//! the engine reads them.

use vstd::prelude::*;

verus! {

/// One framed message on the wire.
pub struct Packet {
    /// The message id.
    id: u16,
    /// Whether the payload is signed.
    signed: bool,
    /// The message body.
    payload: Vec<u8>,
}

/// Begins the handshake.
pub struct ConnectRequest {
    /// The protocol version the client speaks.
    pub version: u16,
    /// The credentials of the account connecting.  Often a token; a plain
    /// `username:password` form also exists but may be disabled server
    /// side.
    pub credentials: String,
    /// The id of the device connecting, assigned by the server side.
    pub device_id: String,
    /// Whether the client wishes to encrypt network traffic.  Some servers
    /// demand it and disconnect clients that decline.
    pub encrypt: bool,
    /// The maximum transfer unit the client wishes to receive.  Requests
    /// may have to be padded to this unit, above all under encryption.
    pub mtu: u16,
}

/// Sent in response to a [`ConnectRequest`].
pub struct ConnectReply {
    /// The longest this client may stay connected, in seconds; zero means
    /// no limit unless a disconnect is pushed.
    pub duration: u32,
    /// The maximum transfer unit the server accepted: never higher than
    /// requested, sometimes lower.
    pub mtu: u16,
    /// How often the client should acknowledge to the server, in
    /// milliseconds.
    pub heart_ack: u64,
}

} // verus!
