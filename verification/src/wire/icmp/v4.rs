//! ICMPv4 message types and codes used by this stack.
use vstd::prelude::*;

verus! {

/// Echo reply.
pub const ECHO_REPLY: u8 = 0;

/// Destination unreachable.
pub const DEST_UNREACHABLE: u8 = 3;

/// Echo request.
pub const ECHO_REQUEST: u8 = 8;

/// Time exceeded.
pub const TIME_EXCEEDED: u8 = 11;

/// Code: protocol unreachable (hard error, RFC 1122 section 3.2.2.1).
pub const CODE_PROTO_UNREACHABLE: u8 = 2;

/// Code: port unreachable (hard error).
pub const CODE_PORT_UNREACHABLE: u8 = 3;

/// Code: fragmentation needed and DF set (RFC 1191 PMTUD signal).
pub const CODE_FRAG_NEEDED: u8 = 4;

} // verus!
