//! ICMPv6 message types used by this stack.
use vstd::prelude::*;

verus! {

/// Destination unreachable.
pub const DEST_UNREACHABLE: u8 = 1;

/// Packet too big (RFC 8201 PMTUD signal).
pub const PACKET_TOO_BIG: u8 = 2;

/// Time exceeded.
pub const TIME_EXCEEDED: u8 = 3;

/// Echo request.
pub const ECHO_REQUEST: u8 = 128;

/// Echo reply.
pub const ECHO_REPLY: u8 = 129;

/// Code: port unreachable (hard error).
pub const CODE_PORT_UNREACHABLE: u8 = 4;

} // verus!
