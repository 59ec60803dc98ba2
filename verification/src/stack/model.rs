//! Model of the host stack: everything but the reassembler as mathematical
//! values, with what each event, call and poll does to it.
use crate::config::{Config, ACTION_QUEUE_SIZE, CTL_QUEUE_SIZE, MAX_LISTENERS};
use crate::ip::pmtu::{path_mtu, Entry};
use crate::ip::{IPV4_MIN_PMTU, IPV6_MIN_PMTU};
use crate::tcp::cc::{greater, lesser};
use crate::tcp::conn::{ConnEvent, ConnModel, ConnParams, FxModel, Tcb, Timers};
use crate::tcp::isn::{domain, isn_value, siphash24, tagged, SipHash24};
use crate::tcp::seq::SeqNr;
use crate::time::{Duration, Instant};
use crate::types::{
    Action, AppEvent, Error, IpAddr, SocketAddr, SocketId, TimerKey, TimerKind,
};
use crate::wire::be32;
use vstd::prelude::*;

verus! {

/// IPv4 header (20) + TCP header (20).
pub const V4_OVERHEAD: u16 = 40;

/// IPv6 header (40) + TCP header (20).
pub const V6_OVERHEAD: u16 = 60;

/// Lowest ephemeral port.
pub const EPHEMERAL_LO: u16 = 49152;

/// Number of ephemeral ports.
pub const EPHEMERAL_SPAN: u32 = 16384;

/// A fully-described control segment (a RST) owed to the network.
#[derive(Debug, Clone, Copy)]
pub struct CtlSegment {
    /// Our endpoint.
    pub local: SocketAddr,
    /// Their endpoint.
    pub remote: SocketAddr,
    /// Sequence number.
    pub seq: SeqNr,
    /// Acknowledgment number, if any.
    pub ack: Option<SeqNr>,
}

impl Default for CtlSegment {
    fn default() -> (r: Self)
        ensures
            r.seq == SeqNr(0),
            r.ack is None,
    {
        CtlSegment {
            local: SocketAddr::default(),
            remote: SocketAddr::default(),
            seq: SeqNr(0),
            ack: None,
        }
    }
}

/// A pending ICMP echo reply (one slot; floods are shed).
#[derive(Debug, Clone, Copy)]
pub struct EchoReply {
    /// Our address (source of the reply).
    pub local: IpAddr,
    /// Their address (destination of the reply).
    pub remote: IpAddr,
    /// Identifier and sequence number to mirror.
    pub rest: [u8; 4],
    /// Length of the body.
    pub len: usize,
}

/// Counters for observability and tests. A counter stays at its largest value
/// once it got there.
#[derive(Debug, Clone, Copy, PartialEq, Eq, Structural)]
pub struct StackStats {
    /// Datagrams handed to `on_datagram`.
    pub rx_datagrams: u64,
    /// Datagrams dropped as malformed (parse/checksum failures).
    pub rx_malformed: u64,
    /// Datagrams dropped because the destination is not local.
    pub rx_not_local: u64,
    /// TCP segments accepted by a connection or listener.
    pub segs_rx: u64,
    /// Datagrams transmitted.
    pub tx_datagrams: u64,
    /// RSTs generated (closed ports, invalid handshakes).
    pub rst_tx: u64,
    /// Challenge ACKs granted (RFC 5961).
    pub challenges_granted: u64,
    /// Challenge ACKs suppressed by the rate limit (RFC 5961 section 10).
    pub challenges_limited: u64,
    /// Echo replies sent.
    pub echo_tx: u64,
    /// Datagrams dropped because the source address is non-unicast (martian:
    /// multicast/broadcast/unspecified/loopback) or one of our own.
    pub rx_martian_src: u64,
    /// Actions dropped because the action queue was full (only possible
    /// under a drain backlog). Shed timer actions are re-issued by the next
    /// reconcile; shed app events are not (recover from state via `state_of`
    /// / `recv`), except that a shed `Connected` is offered again.
    pub actions_shed: u64,
    /// High-water mark of the action queue: how close this deployment has
    /// come to shedding (the queue holds `ACTION_QUEUE_SIZE` actions).
    pub actions_peak: u16,
}

impl Default for StackStats {
    fn default() -> (r: Self)
        ensures
            r == StackStats::zero(),
    {
        StackStats {
            rx_datagrams: 0,
            rx_malformed: 0,
            rx_not_local: 0,
            segs_rx: 0,
            tx_datagrams: 0,
            rst_tx: 0,
            challenges_granted: 0,
            challenges_limited: 0,
            echo_tx: 0,
            rx_martian_src: 0,
            actions_shed: 0,
            actions_peak: 0,
        }
    }
}

impl StackStats {
    /// All counters zero.
    pub open spec fn zero() -> StackStats {
        StackStats {
            rx_datagrams: 0,
            rx_malformed: 0,
            rx_not_local: 0,
            segs_rx: 0,
            tx_datagrams: 0,
            rst_tx: 0,
            challenges_granted: 0,
            challenges_limited: 0,
            echo_tx: 0,
            rx_martian_src: 0,
            actions_shed: 0,
            actions_peak: 0,
        }
    }
}

/// A counter after one more.
pub open spec fn counted(x: u64) -> u64 {
    if x < u64::MAX {
        (x + 1) as u64
    } else {
        x
    }
}

/// Bytes of IP and TCP headers (without options) toward an address.
pub open spec fn overhead(ip: IpAddr) -> u16 {
    if ip is V4 {
        V4_OVERHEAD
    } else {
        V6_OVERHEAD
    }
}

/// Index of the first connection between two endpoints, or the number of
/// slots.
pub open spec fn conn_index(
    conns: Seq<Option<ConnModel>>,
    local: SocketAddr,
    remote: SocketAddr,
) -> nat
    decreases conns.len(),
{
    if conns.len() == 0 {
        0
    } else if conns[0] matches Some(c) && c.tcb.local == local && c.tcb.remote == remote {
        0
    } else {
        1 + conn_index(conns.drop_first(), local, remote)
    }
}

/// Index of the first free slot, or the number of slots.
pub open spec fn free_index(conns: Seq<Option<ConnModel>>) -> nat
    decreases conns.len(),
{
    if conns.len() == 0 || conns[0] is None {
        0
    } else {
        1 + free_index(conns.drop_first())
    }
}

/// Whether a local port is taken toward a remote endpoint.
pub open spec fn port_clashes(
    conns: Seq<Option<ConnModel>>,
    listeners: Seq<u16>,
    port: u16,
    remote: SocketAddr,
) -> bool {
    listeners.contains(port) || exists|i: int|
        0 <= i < conns.len() && ((#[trigger] conns[i]) matches Some(c) && c.tcb.local.port == port
            && c.tcb.remote == remote)
}

/// The ephemeral port `i` steps behind the one at `offset`, cyclically.
pub open spec fn ephemeral_at(offset: u64, i: int) -> u16 {
    (EPHEMERAL_LO + (offset % EPHEMERAL_SPAN as u64 + i) % EPHEMERAL_SPAN as int) as u16
}

/// The first ephemeral port from step `i` on that is not taken.
pub open spec fn free_port(
    conns: Seq<Option<ConnModel>>,
    listeners: Seq<u16>,
    remote: SocketAddr,
    offset: u64,
    i: nat,
) -> Option<u16>
    decreases EPHEMERAL_SPAN - i,
{
    if i >= EPHEMERAL_SPAN {
        None
    } else if !port_clashes(conns, listeners, ephemeral_at(offset, i as int), remote) {
        Some(ephemeral_at(offset, i as int))
    } else {
        free_port(conns, listeners, remote, offset, i + 1)
    }
}

/// The first address of a list that is of the same family as `ip`.
pub open spec fn first_of_family(addrs: Seq<IpAddr>, ip: IpAddr) -> Option<IpAddr>
    decreases addrs.len(),
{
    if addrs.len() == 0 {
        None
    } else if addrs[0] is V4 <==> ip is V4 {
        Some(addrs[0])
    } else {
        first_of_family(addrs.drop_first(), ip)
    }
}

/// What selects the port sequence of a destination: the low 64 bits of the
/// address, plus the port in the upper half, modulo 2^64.
pub open spec fn destination_tag(remote: SocketAddr) -> u64 {
    let o = remote.ip.octets();
    let low = if remote.ip is V4 {
        be32(o, 0) as int
    } else {
        be32(o, 8) * 0x1_0000_0000 + be32(o, 12)
    };
    ((low + remote.port * 0x1_0000_0000) % 0x1_0000_0000_0000_0000) as u64
}

impl Timers {
    /// With the deadline of one timer replaced.
    pub open spec fn replaced(self, kind: TimerKind, at: Option<Instant>) -> Timers {
        match kind {
            TimerKind::Rexmit => Timers { rexmit: at, ..self },
            TimerKind::Persist => Timers { persist: at, ..self },
            TimerKind::DelAck => Timers { del_ack: at, ..self },
            TimerKind::Wait => Timers { wait: at, ..self },
        }
    }
}

/// Model of the stack without its reassembler.
pub struct CoreModel {
    /// Configuration.
    pub cfg: Config,
    /// Capacity of the send buffers.
    pub snd_cap: nat,
    /// Capacity of the receive buffers.
    pub rcv_cap: nat,
    /// Connections by slot.
    pub conns: Seq<Option<ConnModel>>,
    /// How often each slot was freed.
    pub generations: Seq<u32>,
    /// Ports listened on.
    pub listeners: Seq<u16>,
    /// The secret, once entropy arrived.
    pub key: Option<SipHash24>,
    /// Entropy was not asked for yet.
    pub entropy_request_pending: bool,
    /// Path-MTU cache.
    pub pmtu: Seq<Option<Entry>>,
    /// Actions waiting for the runtime.
    pub actions: Seq<Action>,
    /// Resets waiting to be sent.
    pub ctl: Seq<CtlSegment>,
    /// Echo reply waiting to be sent.
    pub echo: Option<EchoReply>,
    /// Its body.
    pub echo_buf: Seq<u8>,
    /// Timers as last told to the runtime, per slot.
    pub emitted: Seq<Timers>,
    /// Challenge ACKs left until the next refill.
    pub challenge_tokens: u8,
    /// When the budget is refilled.
    pub challenge_refill_at: Instant,
    /// Counter behind the IPv4 identification.
    pub ip_ident: u64,
    /// Counter behind the choice of ephemeral ports.
    pub next_ephemeral: u16,
    /// Slot that may send next.
    pub poll_cursor: nat,
    /// Counters.
    pub stats: StackStats,
}

impl CoreModel {
    /// The keyed hash of a value for one purpose, once there is a secret.
    #[verifier::opaque]
    pub open spec fn hashed(self, domain: u8, value: u64) -> Option<u64> {
        match self.key {
            None => None,
            Some(key) => Some(siphash24(key.k0, key.k1, tagged(domain, value))),
        }
    }

    /// With one slot's connection replaced.
    pub open spec fn with_conn(self, idx: int, c: Option<ConnModel>) -> CoreModel {
        CoreModel { conns: self.conns.update(idx, c), ..self }
    }

    /// The handle of a slot's connection.
    pub open spec fn sock_at(self, idx: int) -> SocketId {
        SocketId { index: idx as u8, generation: self.generations[idx] }
    }

    /// Whether a handle stands for a connection: the slot holds one, and was
    /// not freed since the handle was given out.
    pub open spec fn live(self, sock: SocketId) -> bool {
        &&& sock.index < self.conns.len()
        &&& self.generations[sock.index as int] == sock.generation
        &&& self.conns[sock.index as int] is Some
    }

    /// The connection behind a handle.
    pub open spec fn conn_of(self, sock: SocketId) -> Option<ConnModel> {
        if self.live(sock) {
            self.conns[sock.index as int]
        } else {
            None
        }
    }

    /// With an action queued, and whether there was room for it.
    pub open spec fn queued(self, action: Action) -> (CoreModel, bool) {
        if self.actions.len() < ACTION_QUEUE_SIZE {
            (
                CoreModel {
                    actions: self.actions.push(action),
                    stats: StackStats {
                        actions_peak: greater(
                            self.stats.actions_peak as int,
                            self.actions.len() as int + 1,
                        ) as u16,
                        ..self.stats
                    },
                    ..self
                },
                true,
            )
        } else {
            (
                CoreModel {
                    stats: StackStats {
                        actions_shed: counted(self.stats.actions_shed),
                        ..self.stats
                    },
                    ..self
                },
                false,
            )
        }
    }

    /// With a reset queued and counted, if there is room for it.
    pub open spec fn reset_queued(self, c: CtlSegment) -> CoreModel {
        if self.ctl.len() < CTL_QUEUE_SIZE {
            CoreModel {
                ctl: self.ctl.push(c),
                stats: StackStats { rst_tx: counted(self.stats.rst_tx), ..self.stats },
                ..self
            }
        } else {
            self
        }
    }

    /// The challenge budget of the second that starts now: the configured
    /// one, less a keyed-hash jitter of up to half of it, at least one.
    pub open spec fn token_budget(self, now: Instant) -> u8 {
        let cap = self.cfg.challenge_acks_per_sec;
        let jitter = match self.hashed(domain::CHALLENGE_ACK, now.micros / 1_000_000) {
            Some(h) => (h % (cap / 2 + 1) as u64) as int,
            None => 0,
        };
        greater(cap - jitter, 1) as u8
    }

    /// After a token was asked for from the challenge budget (RFC 5961
    /// section 10), and whether it was granted. A configured budget of zero
    /// grants none.
    #[verifier::opaque]
    pub open spec fn token_taken(self, now: Instant) -> (CoreModel, bool) {
        if self.cfg.challenge_acks_per_sec == 0 {
            (self, false)
        } else {
            let due = now.micros >= self.challenge_refill_at.micros;
            let tokens = if due {
                self.token_budget(now)
            } else {
                self.challenge_tokens
            };
            let refill = if due {
                now + (Duration { micros: 1_000_000 })
            } else {
                self.challenge_refill_at
            };
            (
                CoreModel {
                    challenge_tokens: if tokens > 0 {
                        (tokens - 1) as u8
                    } else {
                        0
                    },
                    challenge_refill_at: refill,
                    ..self
                },
                tokens > 0,
            )
        }
    }

    /// With the next IPv4 identification drawn (RFC 6864, RFC 7739): a keyed
    /// hash of a counter, zero before there is entropy.
    pub open spec fn ident_drawn(self) -> (CoreModel, u16) {
        let n = self.ip_ident.wrapping_add(1);
        (
            CoreModel { ip_ident: n, ..self },
            match self.hashed(domain::IP_IDENT, n) {
                Some(h) => (h % 0x1_0000) as u16,
                None => 0,
            },
        )
    }

    /// The application's view of an event of the connection in slot `idx`.
    pub open spec fn app_event(self, idx: int, ev: ConnEvent) -> AppEvent {
        let sock = self.sock_at(idx);
        match ev {
            ConnEvent::Connected => AppEvent::Connected {
                sock,
                via_listener: match self.conns[idx] {
                    Some(c) => if c.tcb.passive {
                        Some(c.tcb.listener_port)
                    } else {
                        None
                    },
                    None => None,
                },
            },
            ConnEvent::Readable => AppEvent::Readable { sock },
            ConnEvent::Writable => AppEvent::Writable { sock },
            ConnEvent::PeerFin => AppEvent::PeerFinReceived { sock },
            ConnEvent::Closed(reason) => AppEvent::Closed { sock, reason },
            ConnEvent::Nothing => AppEvent::Readable { sock },
        }
    }

    /// With an event of the connection in slot `idx` queued for the
    /// application. A `Connected` that finds no room is offered again later:
    /// without it the application never gets the handle.
    #[verifier::opaque]
    pub open spec fn told(self, idx: int, ev: ConnEvent) -> CoreModel {
        if ev is Nothing {
            self
        } else {
            let (m, ok) = self.queued(Action::App(self.app_event(idx, ev)));
            if !ok && ev is Connected && m.conns[idx] is Some {
                let c = m.conns[idx]->0;
                m.with_conn(idx, Some(c.with(Tcb { reported: false, ..c.tcb })))
            } else {
                m
            }
        }
    }

    /// With several events queued, in order.
    pub open spec fn told_all(self, idx: int, evs: Seq<ConnEvent>) -> CoreModel
        decreases evs.len(),
    {
        if evs.len() == 0 {
            self
        } else {
            self.told_all(idx, evs.drop_last()).told(idx, evs.last())
        }
    }

    /// With a challenge ACK granted to the connection in slot `idx`, if the
    /// budget allows.
    #[verifier::opaque]
    pub open spec fn challenged(self, now: Instant, idx: int) -> CoreModel {
        let (m, ok) = self.token_taken(now);
        if ok {
            let n = CoreModel {
                stats: StackStats {
                    challenges_granted: counted(m.stats.challenges_granted),
                    ..m.stats
                },
                ..m
            };
            match n.conns[idx] {
                Some(c) => n.with_conn(idx, Some(c.with(c.tcb.ack_now()))),
                None => n,
            }
        } else {
            CoreModel {
                stats: StackStats {
                    challenges_limited: counted(m.stats.challenges_limited),
                    ..m.stats
                },
                ..m
            }
        }
    }

    /// With the effects of an input to the connection in slot `idx` carried
    /// out.
    pub open spec fn effects(self, now: Instant, idx: int, fx: FxModel) -> CoreModel {
        let a = if fx.wants_challenge {
            self.challenged(now, idx)
        } else {
            self
        };
        let b = match (fx.reset_reply, a.conns[idx]) {
            (Some(r), Some(c)) => a.reset_queued(
                CtlSegment { local: c.tcb.local, remote: c.tcb.remote, seq: r.seq, ack: r.ack },
            ),
            _ => a,
        };
        b.told_all(idx, fx.events)
    }

    // ----- Timers -----

    /// With one timer of the connection in slot `idx` brought in line with
    /// what the runtime was told. What finds no room in the queue is left for
    /// the next time.
    #[verifier::opaque]
    pub open spec fn timer_reconciled(self, now: Instant, idx: int, kind: TimerKind) -> CoreModel {
        let desired = match self.conns[idx] {
            Some(c) => c.tcb.timers.get(kind),
            None => None,
        };
        let told = self.emitted[idx].get(kind);
        if desired == told {
            self
        } else {
            let key = TimerKey::Conn { sock: self.sock_at(idx), kind };
            let (m, ok) = self.queued(
                match desired {
                    Some(d) => Action::StartTimer { key, after: d - now },
                    None => Action::CancelTimer { key },
                },
            );
            if ok {
                CoreModel {
                    emitted: m.emitted.update(idx, m.emitted[idx].replaced(kind, desired)),
                    ..m
                }
            } else {
                m
            }
        }
    }

    /// With all timers of the connection in slot `idx` brought in line.
    pub open spec fn reconciled(self, now: Instant, idx: int) -> CoreModel {
        self.timer_reconciled(now, idx, TimerKind::Rexmit).timer_reconciled(
            now,
            idx,
            TimerKind::Persist,
        ).timer_reconciled(now, idx, TimerKind::DelAck).timer_reconciled(
            now,
            idx,
            TimerKind::Wait,
        )
    }

    /// After a timer of a connection fired. The runtime has it no more,
    /// whatever the connection makes of it; a fire for a slot that was freed
    /// since is ignored.
    #[verifier::opaque]
    pub open spec fn timer_fired(self, now: Instant, sock: SocketId, kind: TimerKind) -> CoreModel {
        let idx = sock.index as int;
        if idx >= self.conns.len() || self.generations[idx] != sock.generation {
            self
        } else {
            let a = CoreModel {
                emitted: self.emitted.update(idx, self.emitted[idx].without(kind)),
                ..self
            };
            match a.conns[idx] {
                None => a,
                Some(c) => {
                    let (n, fx) = c.fired(now, kind, FxModel::empty());
                    a.with_conn(idx, Some(n)).effects(now, idx, fx)
                },
            }
        }
    }

    // ----- Application calls -----

    /// After a port was asked to be listened on.
    pub open spec fn listening(self, port: u16) -> (CoreModel, Result<(), Error>) {
        if port == 0 {
            (self, Err(Error::Unaddressable))
        } else if self.listeners.contains(port) {
            (self, Err(Error::AddrInUse))
        } else if self.listeners.len() >= MAX_LISTENERS {
            (self, Err(Error::BufferFull))
        } else {
            (CoreModel { listeners: self.listeners.push(port), ..self }, Ok(()))
        }
    }

    /// After a port is listened on no more.
    pub open spec fn unlistened(self, port: u16) -> CoreModel {
        CoreModel { listeners: self.listeners.filter(|p: u16| p != port), ..self }
    }

    /// After an ephemeral port was chosen (RFC 6056 algorithm 5): the first
    /// one not taken from a keyed-hash place on that differs by destination
    /// and by attempt.
    #[verifier::opaque]
    pub open spec fn port_chosen(self, remote: SocketAddr) -> (CoreModel, Option<u16>) {
        let counter = self.next_ephemeral;
        let offset = match self.hashed(
            domain::EPHEMERAL_PORT,
            destination_tag(remote).wrapping_add(counter as u64),
        ) {
            Some(h) => h,
            None => counter as u64,
        };
        (
            CoreModel { next_ephemeral: counter.wrapping_add(1), ..self },
            free_port(self.conns, self.listeners, remote, offset, 0),
        )
    }

    /// Parameters of a connection toward an address.
    #[verifier::opaque]
    pub open spec fn params_for(self, now: Instant, ip: IpAddr) -> ConnParams {
        let floor = if ip is V4 {
            IPV4_MIN_PMTU
        } else {
            IPV6_MIN_PMTU
        };
        ConnParams {
            local_mss: match self.cfg.mss_override {
                Some(m) => m,
                None => (greater(self.cfg.mtu as int, floor as int) - overhead(ip)) as u16,
            },
            offer_wscale: if self.cfg.offer_window_scale {
                Some(lesser(self.cfg.recv_window_scale as int, 14) as u8)
            } else {
                None
            },
            offer_sack: self.cfg.sack,
            pmtu_mss: (greater(path_mtu(self.pmtu, now, self.cfg.mtu, ip) as int, floor as int)
                - overhead(ip)) as u16,
        }
    }

    /// Whether a connection between two endpoints can be asked for at all:
    /// same family, real ports, a unicast peer that is not ourselves, and an
    /// address of ours.
    pub open spec fn addressable(self, local: SocketAddr, remote: SocketAddr) -> bool {
        &&& local.ip is V4 <==> remote.ip is V4
        &&& remote.port != 0
        &&& local.port != 0
        &&& remote.ip.unicast_source()
        &&& !self.cfg.owns(remote.ip)
        &&& self.cfg.owns(local.ip)
    }

    /// After an active open between two endpoints was asked for.
    #[verifier::opaque]
    pub open spec fn opened_from(self, now: Instant, local: SocketAddr, remote: SocketAddr) -> (
        CoreModel,
        Result<SocketId, Error>,
    ) {
        let idx = free_index(self.conns) as int;
        if !self.addressable(local, remote) {
            (self, Err(Error::Unaddressable))
        } else if self.key is None {
            (self, Err(Error::NeedEntropy))
        } else if conn_index(self.conns, local, remote) < self.conns.len() {
            (self, Err(Error::AddrInUse))
        } else if idx >= self.conns.len() {
            (self, Err(Error::NoSlot))
        } else {
            let c = ConnModel::opened(
                self.cfg,
                self.params_for(now, remote.ip),
                local,
                remote,
                isn_value(self.key->0, now, local, remote),
                self.rcv_cap,
            );
            (self.with_conn(idx, Some(c)), Ok(self.sock_at(idx)))
        }
    }

    /// After an active open from an automatic local endpoint was asked for.
    pub open spec fn opened(self, now: Instant, remote: SocketAddr) -> (
        CoreModel,
        Result<SocketId, Error>,
    ) {
        match first_of_family(self.cfg.local_addrs@, remote.ip) {
            None => (self, Err(Error::Unaddressable)),
            Some(ip) => {
                let (m, port) = self.port_chosen(remote);
                match port {
                    None => (m, Err(Error::NoSlot)),
                    Some(p) => m.opened_from(now, SocketAddr { ip, port: p }, remote),
                }
            },
        }
    }

    /// After bytes were offered to a connection.
    pub open spec fn sent(self, sock: SocketId, data: Seq<u8>) -> (
        CoreModel,
        Result<usize, Error>,
    ) {
        match self.conn_of(sock) {
            None => (self, Err(Error::NotFound)),
            Some(c) => {
                let (n, r) = c.written(data, self.snd_cap as int);
                (self.with_conn(sock.index as int, Some(n)), r)
            },
        }
    }

    /// After a graceful close was asked for.
    #[verifier::opaque]
    pub open spec fn shut(self, now: Instant, sock: SocketId) -> (CoreModel, Result<(), Error>) {
        let idx = sock.index as int;
        match self.conn_of(sock) {
            None => (self, Err(Error::NotFound)),
            Some(c) => {
                let (n, fx, r) = c.shut(FxModel::empty());
                (self.with_conn(idx, Some(n)).effects(now, idx, fx), r)
            },
        }
    }

    /// After an abort was asked for: the peer is reset.
    #[verifier::opaque]
    pub open spec fn aborted(self, now: Instant, sock: SocketId) -> (
        CoreModel,
        Result<(), Error>,
    ) {
        let idx = sock.index as int;
        match self.conn_of(sock) {
            None => (self, Err(Error::NotFound)),
            Some(c) => {
                let (n, fx) = c.closed(crate::types::CloseReason::Aborted, FxModel::empty());
                let a = self.with_conn(idx, Some(n));
                let b = match c.abort_reset() {
                    Some(r) => a.reset_queued(
                        CtlSegment {
                            local: c.tcb.local,
                            remote: c.tcb.remote,
                            seq: r.seq,
                            ack: r.ack,
                        },
                    ),
                    None => a,
                };
                (b.effects(now, idx, fx), Ok(()))
            },
        }
    }
}

} // verus!
