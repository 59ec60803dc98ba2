//! IP protocol numbers used by this stack.
use vstd::prelude::*;

verus! {

/// ICMP (IPv4).
pub const ICMP: u8 = 1;

/// TCP.
pub const TCP: u8 = 6;

/// ICMPv6.
pub const ICMPV6: u8 = 58;

} // verus!
