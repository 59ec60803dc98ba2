//! Public types: addresses, handles, events, actions, errors.
//!
//! Together with the [`crate::Stack`] entry points these define the complete
//! interface of the protocol core: every input is an [`Event`] or an API call,
//! every output is an [`Action`].
use crate::time::Duration;
use vstd::prelude::*;
use vstd::std_specs::cmp::PartialEqSpecImpl;

verus! {

/// Whether two byte arrays hold the same bytes.
pub fn bytes_equal<const N: usize>(a: &[u8; N], b: &[u8; N]) -> (r: bool)
    ensures
        r == (*a == *b),
{
    let mut i: usize = 0;
    while i < N
        invariant
            i <= N,
            forall|j: int| 0 <= j < i ==> a[j] == b[j],
        decreases N - i,
    {
        if a[i] != b[i] {
            return false;
        }
        i += 1;
    }
    assert(*a =~= *b);
    true
}

/// An IPv4 or IPv6 address.
#[derive(Debug, Clone, Copy, Eq, Hash)]
pub enum IpAddr {
    /// IPv4 address, network byte order.
    V4([u8; 4]),
    /// IPv6 address, network byte order.
    V6([u8; 16]),
}

impl PartialEqSpecImpl for IpAddr {
    open spec fn obeys_eq_spec() -> bool {
        true
    }

    open spec fn eq_spec(&self, other: &IpAddr) -> bool {
        *self == *other
    }
}

impl PartialEq for IpAddr {
    fn eq(&self, other: &IpAddr) -> (r: bool) {
        match (self, other) {
            (IpAddr::V4(a), IpAddr::V4(b)) => bytes_equal(a, b),
            (IpAddr::V6(a), IpAddr::V6(b)) => bytes_equal(a, b),
            _ => false,
        }
    }
}

impl IpAddr {
    /// The bytes of the address, network byte order.
    pub open spec fn octets(self) -> Seq<u8> {
        match self {
            IpAddr::V4(b) => b@,
            IpAddr::V6(b) => b@,
        }
    }

    /// A unicast address, fit to be the source of a datagram that deserves an
    /// answer: not in 0.0.0.0/8, 127.0.0.0/8 or anything from 224.0.0.0 up
    /// for IPv4; not `::`, `::1` or ff00::/8 for IPv6.
    pub open spec fn unicast_source(self) -> bool {
        match self {
            IpAddr::V4(b) => 0 < b[0] < 224 && b[0] != 127,
            IpAddr::V6(b) => {
                &&& b[0] != 0xff
                &&& (exists|i: int| 0 <= i < 15 && #[trigger] b[i] != 0) || b[15] > 1
            },
        }
    }

    /// Convenience IPv4 constructor.
    pub fn v4(a: u8, b: u8, c: u8, d: u8) -> (r: Self)
        ensures
            r is V4,
            r.octets() == seq![a, b, c, d],
    {
        let r = IpAddr::V4([a, b, c, d]);
        assert(r.octets() =~= seq![a, b, c, d]);
        r
    }

    /// Convenience IPv6 constructor from 16-bit groups.
    pub fn v6(g: [u16; 8]) -> (r: Self)
        ensures
            r is V6,
            forall|i: int|
                0 <= i < 8 ==> {
                    &&& #[trigger] g[i] == r.octets()[2 * i] * 256 + r.octets()[2 * i + 1]
                },
    {
        let mut b: [u8; 16] = [0u8; 16];
        let mut i: usize = 0;
        while i < 8
            invariant
                i <= 8,
                forall|j: int| 0 <= j < i ==> #[trigger] g[j] == b[2 * j] * 256 + b[2 * j + 1],
            decreases 8 - i,
        {
            let v: u16 = g[i];
            b[2 * i] = (v / 256) as u8;
            b[2 * i + 1] = (v % 256) as u8;
            i += 1;
        }
        IpAddr::V6(b)
    }

    /// True for [`IpAddr::V4`].
    pub fn is_v4(&self) -> (r: bool)
        ensures
            r == (self is V4),
    {
        match self {
            IpAddr::V4(_) => true,
            IpAddr::V6(_) => false,
        }
    }

    /// True if both addresses are the same IP family.
    pub fn same_family(&self, other: &IpAddr) -> (r: bool)
        ensures
            r == (self is V4 <==> other is V4),
    {
        self.is_v4() == other.is_v4()
    }

    /// True if this is a unicast address valid as the *source* of a datagram
    /// the stack should respond to. Rejects multicast, broadcast, the
    /// unspecified address, and loopback arriving from the wire. RFC 1122
    /// section 4.2.3.10: a host MUST NOT respond to TCP segments addressed
    /// from a broadcast or multicast source; this extends to all replies the
    /// stack generates (RST, SYN-ACK, echo) so that it cannot be used as a
    /// reflector toward such addresses.
    pub fn is_unicast_source(&self) -> (r: bool)
        ensures
            r == self.unicast_source(),
    {
        match self {
            IpAddr::V4(b) => b[0] != 0 && b[0] != 127 && b[0] < 224,
            IpAddr::V6(b) => {
                if b[0] == 0xff {
                    return false;
                }
                let mut i: usize = 0;
                while i < 15
                    invariant
                        i <= 15,
                        forall|j: int| 0 <= j < i ==> b[j] == 0,
                        *self == IpAddr::V6(*b),
                        b[0] != 0xff,
                    decreases 15 - i,
                {
                    if b[i] != 0 {
                        return true;
                    }
                    i += 1;
                }
                assert(b[0] == 0);
                b[15] > 1
            },
        }
    }
}

impl Default for IpAddr {
    fn default() -> (r: Self)
        ensures
            r is V4,
            r.octets() == seq![0u8, 0, 0, 0],
    {
        IpAddr::v4(0, 0, 0, 0)
    }
}

/// A transport endpoint: IP address and TCP port.
#[derive(Debug, Clone, Copy, Eq, Hash)]
pub struct SocketAddr {
    /// IP address.
    pub ip: IpAddr,
    /// TCP port.
    pub port: u16,
}

impl PartialEqSpecImpl for SocketAddr {
    open spec fn obeys_eq_spec() -> bool {
        true
    }

    open spec fn eq_spec(&self, other: &SocketAddr) -> bool {
        *self == *other
    }
}

impl PartialEq for SocketAddr {
    fn eq(&self, other: &SocketAddr) -> (r: bool) {
        self.ip == other.ip && self.port == other.port
    }
}

impl SocketAddr {
    /// Construct an endpoint.
    pub fn new(ip: IpAddr, port: u16) -> (r: Self)
        ensures
            r.ip == ip,
            r.port == port,
    {
        SocketAddr { ip, port }
    }
}

impl Default for SocketAddr {
    fn default() -> (r: Self)
        ensures
            r.ip is V4,
            r.ip.octets() == seq![0u8, 0, 0, 0],
            r.port == 0,
    {
        SocketAddr { ip: IpAddr::default(), port: 0 }
    }
}

/// Handle to a connection slot.
///
/// Contains a generation counter so a stale handle to a recycled slot is
/// detected instead of aliasing a new connection (ABA safety). The counter
/// is 32 bits: at one slot reuse per millisecond it takes about 50 days to
/// wrap, which places collisions outside any realistic stale-handle or
/// stale-timer lifetime.
#[derive(Debug, Clone, Copy, PartialEq, Eq, Structural, Hash)]
pub struct SocketId {
    /// Slot index.
    pub index: u8,
    /// Generation of the slot that this handle was made for.
    pub generation: u32,
}

impl Default for SocketId {
    fn default() -> (r: Self)
        ensures
            r == (SocketId { index: 0, generation: 0 }),
    {
        SocketId { index: 0, generation: 0 }
    }
}

/// Per-connection virtual timers.
#[derive(Debug, Clone, Copy, PartialEq, Eq, Structural, Hash)]
pub enum TimerKind {
    /// Retransmission timer (RFC 6298).
    Rexmit,
    /// Zero-window persist timer (RFC 9293 section 3.8.6.1).
    Persist,
    /// Delayed-ACK timer (RFC 1122 section 4.2.3.2).
    DelAck,
    /// Connection lifetime timer: TIME-WAIT 2*MSL (RFC 9293 section 3.4.1) and
    /// the FIN-WAIT-2 idle timeout share this slot (they are mutually
    /// exclusive).
    Wait,
}

impl TimerKind {
    /// Position of this timer in per-connection timer arrays.
    pub open spec fn spec_index(self) -> int {
        match self {
            TimerKind::Rexmit => 0,
            TimerKind::Persist => 1,
            TimerKind::DelAck => 2,
            TimerKind::Wait => 3,
        }
    }

    /// Position of this timer in per-connection timer arrays.
    pub fn index(self) -> (r: usize)
        ensures
            r == self.spec_index(),
            r < 4,
    {
        match self {
            TimerKind::Rexmit => 0,
            TimerKind::Persist => 1,
            TimerKind::DelAck => 2,
            TimerKind::Wait => 3,
        }
    }
}

/// Identifies a virtual timer owned by the core.
///
/// Re-arming an already-armed key reschedules it; the runtime keeps at most
/// one pending expiry per key.
#[derive(Debug, Clone, Copy, PartialEq, Eq, Structural, Hash)]
pub enum TimerKey {
    /// A per-connection timer.
    Conn {
        /// Owning connection.
        sock: SocketId,
        /// Which of the connection's timers.
        kind: TimerKind,
    },
    /// Reassembly timeout for one reassembly slot.
    Reasm {
        /// Slot index within the reassembler.
        slot: u8,
        /// Slot generation. Like [`SocketId::generation`], this lets the
        /// stack detect a stale fire for a recycled slot instead of evicting
        /// the wrong datagram.
        generation: u8,
    },
}

/// Environment events fed into the core.
///
/// API calls ([`crate::Stack::connect`], `send`, `recv`, `close`, ...) are the
/// remaining inputs; a replaying runtime records those calls alongside these
/// events to reproduce a run exactly.
#[derive(Debug, Clone, Copy)]
pub enum Event<'a> {
    /// A whole IP datagram arrived from the link-layer adapter.
    DatagramReceived(&'a [u8]),
    /// A timer previously started via [`Action::StartTimer`] expired.
    TimerExpired(TimerKey),
    /// Entropy supplied in response to [`Action::RequestEntropy`].
    EntropyProvided([u8; 16]),
}

/// Notifications to the application embedded in the action stream.
#[derive(Debug, Clone, Copy, PartialEq, Eq, Structural)]
pub enum AppEvent {
    /// A connection reached ESTABLISHED. `via_listener` carries the local
    /// listening port for passively accepted connections.
    Connected {
        /// The connection.
        sock: SocketId,
        /// Listening port that accepted it, if passive.
        via_listener: Option<u16>,
    },
    /// Received data became available to read.
    Readable {
        /// The connection.
        sock: SocketId,
    },
    /// Send-buffer space became available after pressure.
    Writable {
        /// The connection.
        sock: SocketId,
    },
    /// The peer finished sending (FIN received); reads will drain then EOF.
    PeerFinReceived {
        /// The connection.
        sock: SocketId,
    },
    /// The connection no longer exists; the handle is invalid after this.
    Closed {
        /// The connection.
        sock: SocketId,
        /// Why it went away.
        reason: CloseReason,
    },
}

/// Why a connection was destroyed.
#[derive(Debug, Clone, Copy, PartialEq, Eq, Structural)]
pub enum CloseReason {
    /// Normal close handshake completed (or TIME-WAIT expired).
    Normal,
    /// The peer reset the connection.
    Reset,
    /// Active open was refused (RST in SYN-SENT).
    Refused,
    /// Retransmission limit exhausted (RFC 1122 R2) or handshake timeout.
    TimedOut,
    /// An ICMP hard error (e.g. port/protocol unreachable) aborted it.
    Unreachable,
    /// The local application aborted it.
    Aborted,
}

/// Outputs of the core, drained via [`crate::Stack::poll_action`].
#[derive(Debug, Clone, Copy, PartialEq, Eq, Structural)]
pub enum Action {
    /// Placeholder for fixed-capacity queue initialization; never returned
    /// by [`crate::Stack::poll_action`].
    Nothing,
    /// One whole IP datagram of `len` bytes was written into the buffer
    /// passed to [`crate::Stack::poll_action`]; transmit it.
    Transmit {
        /// Datagram length in bytes.
        len: usize,
    },
    /// (Re)start virtual timer `key` to fire `after` from now.
    StartTimer {
        /// Timer identity.
        key: TimerKey,
        /// Delay from the `now` passed to `poll_action`.
        after: Duration,
    },
    /// Cancel virtual timer `key` if pending.
    CancelTimer {
        /// Timer identity.
        key: TimerKey,
    },
    /// Provide 16 bytes of entropy via [`Event::EntropyProvided`].
    /// Required before connections can be opened (RFC 6528).
    RequestEntropy,
    /// Application notification.
    App(AppEvent),
}

impl Default for Action {
    fn default() -> (r: Self)
        ensures
            r is Nothing,
    {
        Action::Nothing
    }
}

/// Errors returned by API calls.
#[derive(Debug, Clone, Copy, PartialEq, Eq, Structural)]
pub enum Error {
    /// All connection slots are in use.
    NoSlot,
    /// Entropy has not been provided yet (answer [`Action::RequestEntropy`]).
    NeedEntropy,
    /// Unknown or stale [`SocketId`].
    NotFound,
    /// Operation invalid in the connection's current state.
    InvalidState,
    /// No buffer space (send) or table space (listen) available.
    BufferFull,
    /// The 4-tuple or listening port is already in use.
    AddrInUse,
    /// No local address of a matching family is configured.
    Unaddressable,
    /// The connection was reset or aborted; only `recv` of buffered data
    /// remains valid.
    ConnectionGone,
}

impl Error {
    /// A stable, human-readable description.
    pub fn as_str(self) -> (r: &'static str)
        ensures
            r@ == match self {
                Error::NoSlot => "no free connection slot"@,
                Error::NeedEntropy => "entropy not yet provided"@,
                Error::NotFound => "unknown or stale socket handle"@,
                Error::InvalidState => "operation invalid in current state"@,
                Error::BufferFull => "no buffer or table space available"@,
                Error::AddrInUse => "address or port already in use"@,
                Error::Unaddressable => "no local address of a matching family"@,
                Error::ConnectionGone => "connection reset or aborted"@,
            },
    {
        match self {
            Error::NoSlot => "no free connection slot",
            Error::NeedEntropy => "entropy not yet provided",
            Error::NotFound => "unknown or stale socket handle",
            Error::InvalidState => "operation invalid in current state",
            Error::BufferFull => "no buffer or table space available",
            Error::AddrInUse => "address or port already in use",
            Error::Unaddressable => "no local address of a matching family",
            Error::ConnectionGone => "connection reset or aborted",
        }
    }
}

/// Which IPv4 addresses deserve an answer: not "this network", the loop-back,
/// multicast, the reserved ones or the broadcast address.
pub proof fn unicast_v4_addresses(b: [u8; 4])
    ensures
        b[0] == 0 || b[0] == 127 || b[0] >= 224 ==> !IpAddr::V4(b).unicast_source(),
        1 <= b[0] <= 126 || 128 <= b[0] <= 223 ==> IpAddr::V4(b).unicast_source(),
{
}

/// Which IPv6 addresses do: not the unspecified one, the loop-back, or
/// multicast.
pub proof fn unicast_v6_addresses(b: [u8; 16], i: int)
    requires
        0 <= i < 16,
    ensures
        b[0] == 0xff ==> !IpAddr::V6(b).unicast_source(),
        (forall|j: int| 0 <= j < 15 ==> #[trigger] b[j] == 0) && b[15] <= 1 ==> !IpAddr::V6(
            b,
        ).unicast_source(),
        b[0] != 0xff && i < 15 && b[i] != 0 ==> IpAddr::V6(b).unicast_source(),
        b[0] != 0xff && b[15] > 1 ==> IpAddr::V6(b).unicast_source(),
{
}

} // verus!
