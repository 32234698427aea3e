//! RPLIDAR protocol errors: what a decoder reports when bytes from the
//! device do not match the wire format.
use vstd::prelude::*;

use crate::checksum::{hex_byte, push_hex_byte};
use crate::text::{decimal, push_decimal};

verus! {

/// A protocol-level decoding failure: a desynchronized stream, a corrupted
/// transfer, or an unexpected response to a request.
#[derive(Debug, Clone, Copy, PartialEq, Eq)]
#[non_exhaustive]
pub enum ProtocolError {
    /// A response descriptor did not start with the `0xA5 0x5A` sync bytes.
    BadSync {
        /// The two bytes actually received where the sync bytes were expected.
        actual: [u8; 2],
    },
    /// A response descriptor used a reserved send-mode value (`0x2`/`0x3`).
    ReservedSendMode(u8),
    /// The descriptor announced another data type than the request expects.
    WrongDataType { expected: u8, actual: u8 },
    /// The descriptor announced another payload length than the request expects.
    WrongLength { expected: u32, actual: u32 },
    /// The descriptor announced another send mode (single vs. multi).
    WrongSendMode,
    /// A `GET_HEALTH` response carried a status byte outside `0..=2`.
    InvalidHealthStatus(u8),
    /// A 5-byte scan node failed its validity check.
    InvalidScanNode { byte0: u8, byte1: u8 },
    /// A checksum-protected payload failed verification.
    Checksum { expected: u8, actual: u8 },
}

/// `b` as `0x` and two lowercase hex digits (`{:#04x}`).
pub open spec fn hex_prefixed(b: u8) -> Seq<char> {
    "0x"@ + hex_byte(b)
}

/// The message of each error.
pub open spec fn protocol_message(e: ProtocolError) -> Seq<char> {
    match e {
        ProtocolError::BadSync { actual } => "bad descriptor sync: expected [0xa5, 0x5a], got ["@
            + hex_byte(actual[0]) + ", "@ + hex_byte(actual[1]) + "]"@,
        ProtocolError::ReservedSendMode(mode) => "reserved response send mode "@ + hex_prefixed(mode),
        ProtocolError::WrongDataType { expected, actual } => "unexpected response data type: expected "@
            + hex_prefixed(expected) + ", got "@ + hex_prefixed(actual),
        ProtocolError::WrongLength { expected, actual } => "unexpected response length: expected "@
            + decimal(expected as nat) + ", got "@ + decimal(actual as nat),
        ProtocolError::WrongSendMode => "unexpected response send mode"@,
        ProtocolError::InvalidHealthStatus(status) => "invalid health status byte "@ + hex_prefixed(status),
        ProtocolError::InvalidScanNode { byte0, byte1 } => "invalid scan node: byte0="@ + hex_prefixed(byte0)
            + ", byte1="@ + hex_prefixed(byte1),
        ProtocolError::Checksum { expected, actual } => "bad checksum: expected "@ + hex_prefixed(expected)
            + ", got "@ + hex_prefixed(actual),
    }
}

/// Append `0x` and the two lowercase hex digits of `b`.
fn push_hex_prefixed(out: &mut String, b: u8)
    ensures
        final(out)@ == old(out)@ + hex_prefixed(b),
{
    out.push_str("0x");
    push_hex_byte(out, b);
    assert(final(out)@ =~= old(out)@ + hex_prefixed(b));
}

impl ProtocolError {
    /// The error as a message.
    pub fn to_string(&self) -> (res: String)
        ensures
            res@ == protocol_message(*self),
    {
        let mut out = String::new();
        match *self {
            ProtocolError::BadSync { actual } => {
                out.push_str("bad descriptor sync: expected [0xa5, 0x5a], got [");
                push_hex_byte(&mut out, actual[0]);
                out.push_str(", ");
                push_hex_byte(&mut out, actual[1]);
                out.push_str("]");
            },
            ProtocolError::ReservedSendMode(mode) => {
                out.push_str("reserved response send mode ");
                push_hex_prefixed(&mut out, mode);
            },
            ProtocolError::WrongDataType { expected, actual } => {
                out.push_str("unexpected response data type: expected ");
                push_hex_prefixed(&mut out, expected);
                out.push_str(", got ");
                push_hex_prefixed(&mut out, actual);
            },
            ProtocolError::WrongLength { expected, actual } => {
                out.push_str("unexpected response length: expected ");
                push_decimal(&mut out, expected as u64);
                out.push_str(", got ");
                push_decimal(&mut out, actual as u64);
            },
            ProtocolError::WrongSendMode => {
                out.push_str("unexpected response send mode");
            },
            ProtocolError::InvalidHealthStatus(status) => {
                out.push_str("invalid health status byte ");
                push_hex_prefixed(&mut out, status);
            },
            ProtocolError::InvalidScanNode { byte0, byte1 } => {
                out.push_str("invalid scan node: byte0=");
                push_hex_prefixed(&mut out, byte0);
                out.push_str(", byte1=");
                push_hex_prefixed(&mut out, byte1);
            },
            ProtocolError::Checksum { expected, actual } => {
                out.push_str("bad checksum: expected ");
                push_hex_prefixed(&mut out, expected);
                out.push_str(", got ");
                push_hex_prefixed(&mut out, actual);
            },
        }
        out
    }
}

} // verus!
