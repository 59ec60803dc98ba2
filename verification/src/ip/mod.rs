//! IP-layer state machines: fragment reassembly, egress fragmentation and
//! the path-MTU cache.
//!
//! Datagram demultiplexing itself lives in [`crate::Stack`]; this module
//! holds the stateful pieces, each a deterministic fixed-capacity machine.
pub mod assembly;
pub mod frag;
pub mod pmtu;
pub mod reasm;

use crate::types::IpAddr;
use vstd::prelude::*;
use vstd::std_specs::cmp::PartialEqSpecImpl;

verus! {

/// Identifies one datagram under reassembly (RFC 791 section 2.3: source,
/// destination, protocol, identification; RFC 8200 section 4.5: source,
/// destination, identification).
#[derive(Debug, Clone, Copy, Eq)]
pub struct ReasmKey {
    /// Source address of the fragments.
    pub src: IpAddr,
    /// Destination address of the fragments.
    pub dst: IpAddr,
    /// Upper-layer protocol (for IPv6 this is the fragment header's
    /// next-header value from the first fragment).
    pub proto: u8,
    /// Identification field (u16 for IPv4 zero-extended to u32).
    pub ident: u32,
}

impl PartialEqSpecImpl for ReasmKey {
    open spec fn obeys_eq_spec() -> bool {
        true
    }

    open spec fn eq_spec(&self, other: &ReasmKey) -> bool {
        *self == *other
    }
}

impl PartialEq for ReasmKey {
    fn eq(&self, other: &ReasmKey) -> (r: bool) {
        self.src == other.src && self.dst == other.dst && self.proto == other.proto && self.ident
            == other.ident
    }
}

impl ReasmKey {
    /// The key of a slot that was never used.
    pub open spec fn blank() -> ReasmKey {
        ReasmKey {
            src: IpAddr::V4([0, 0, 0, 0]),
            dst: IpAddr::V4([0, 0, 0, 0]),
            proto: 0,
            ident: 0,
        }
    }
}

impl Default for ReasmKey {
    fn default() -> (r: Self)
        ensures
            r == ReasmKey::blank(),
    {
        ReasmKey {
            src: IpAddr::V4([0, 0, 0, 0]),
            dst: IpAddr::V4([0, 0, 0, 0]),
            proto: 0,
            ident: 0,
        }
    }
}

/// Practical lower bound applied to IPv4 path-MTU estimates. RFC 1191
/// permits 68, but every modern path supports 576 and flooring here bounds
/// worst-case segment counts.
pub const IPV4_MIN_PMTU: u16 = 576;

/// IPv6 minimum link MTU (RFC 8200 section 5).
pub const IPV6_MIN_PMTU: u16 = 1280;

} // verus!
