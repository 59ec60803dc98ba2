//! Blind RST/SYN injection, zero-window persist, path-MTU discovery, ICMP echo,
//! fragment reassembly, and ISN unpredictability.
#![allow(dead_code)]
use tcp_sans_io::config::Config;
use tcp_sans_io::tcp::State as TcpState;
use tcp_sans_io::time::{Duration, Instant};
use tcp_sans_io::{
    Action, AppEvent, CloseReason, IpAddr, SocketAddr, SocketId, Stack, TimerKey, TimerKind,
};
use tcp_sans_io::config::MAX_OOO_RANGES;
use tcp_sans_io::wire::tcp::{TcpEmit, TcpFlags, TcpOptionsEmit};
use tcp_sans_io::wire::{ipv4, proto};

/// Maximum datagram the harness will carry (one MTU of headroom).
const FRAME: usize = 2048;

/// Upper bound on `poll_action` calls in one drain. Statically, a quiescing
/// stack can owe at most the action queue (64) + ctl queue (8) + one echo +
/// every connection's sendable window (about 16 KiB / MSS about 12 segments x 8
/// conns) + a sweep's worth of timer diffs - well under 1k. A drain that
/// exceeds this bound means `poll_action` is not quiescing: a livelock.
const DRAIN_FUEL: usize = 8192;

/// How faithfully the harness honors the obligation to drain.
#[derive(Debug, Clone, Copy, PartialEq, Eq)]
enum DrainPolicy {
    /// Drain to `None` after every event/API call (a compliant runtime).
    Eager,
    /// Skip each drain opportunity with probability `skip_permille`,
    /// seed-driven - a runtime that falls behind and catches up later.
    /// Models GC pauses, batching hosts, starved threads. The stack's
    /// degraded-mode claim ("delays, never loses") is tested in this mode.
    Lazy {
        /// Probability per mille of skipping a drain opportunity.
        skip_permille: u32,
    },
}

/// A datagram in flight, scheduled to arrive at `deliver_at`.
struct InFlight {
    deliver_at: Instant,
    to: Host,
    bytes: Vec<u8>,
    /// Tie-breaker so equal arrival times stay FIFO (deterministic order).
    seq: u64,
}

/// Which host.
#[derive(Debug, Clone, Copy, PartialEq, Eq)]
enum Host {
    A,
    B,
}

impl Host {
    fn other(self) -> Host {
        match self {
            Host::A => Host::B,
            Host::B => Host::A,
        }
    }
    fn idx(self) -> usize {
        self as usize
    }
}

/// A pending virtual timer.
#[derive(Clone, Copy)]
struct Timer {
    fire_at: Instant,
    host: Host,
    key: TimerKey,
    live: bool,
}

/// Network impairments applied to each datagram. Deterministic given the
/// harness RNG seed.
#[derive(Debug, Clone, Copy)]
struct NetModel {
    /// One-way propagation delay.
    delay: Duration,
    /// Drop probability in [0,1000): `loss` per mille.
    loss_permille: u32,
    /// Duplicate probability per mille.
    dup_permille: u32,
    /// Extra jitter up to this much, added pseudo-randomly.
    jitter: Duration,
    /// Corrupt-a-byte probability per mille (exercises checksum rejection).
    corrupt_permille: u32,
}

impl Default for NetModel {
    fn default() -> Self {
        NetModel {
            delay: Duration::from_millis(10),
            loss_permille: 0,
            dup_permille: 0,
            jitter: Duration::zero(),
            corrupt_permille: 0,
        }
    }
}

/// Captured application event with the host it fired on.
#[derive(Debug, Clone, Copy, PartialEq, Eq)]
struct Captured {
    host: Host,
    event: AppEvent,
}

/// Deterministic xorshift64* PRNG (no external deps, replayable).
struct Rng(u64);

impl Rng {
    fn new(seed: u64) -> Self {
        Rng(seed | 1)
    }
    fn next_u64(&mut self) -> u64 {
        let mut x = self.0;
        x ^= x >> 12;
        x ^= x << 25;
        x ^= x >> 27;
        self.0 = x;
        x.wrapping_mul(0x2545_F491_4F6C_DD1D)
    }
    fn below(&mut self, bound: u32) -> u32 {
        if bound == 0 {
            return 0;
        }
        (self.next_u64() % bound as u64) as u32
    }
    fn chance_permille(&mut self, permille: u32) -> bool {
        self.below(1000) < permille
    }
}

/// Two stacks and the wire between them.
///
/// The stacks are boxed: each `Stack<8, 16384, 16384>` embeds all connection buffers
/// inline (no heap inside the core), so keeping two by value in a test-thread
/// stack frame would overflow it. The box moves that fixed arena to the heap
/// - exactly what a real runtime does when it places the stack in a `static`
/// or an allocation.
struct Net {
    a: Box<Stack<8, 16384, 16384>>,
    b: Box<Stack<8, 16384, 16384>>,
    addr_a: IpAddr,
    addr_b: IpAddr,
    clock: Instant,
    wire: Vec<InFlight>,
    timers: Vec<Timer>,
    model: NetModel,
    rng: Rng,
    seq: u64,
    events: Vec<Captured>,
    /// Total bytes the harness chose to drop (for assertions/logging).
    dropped: u64,
    /// Drain discipline (default: compliant `Eager`).
    drain_policy: DrainPolicy,
}

impl Net {
    /// Build a v4 network. `seed` drives all impairment decisions.
    fn new(model: NetModel, seed: u64) -> Self {
        Self::with_addrs(
            IpAddr::v4(10, 0, 0, 1),
            IpAddr::v4(10, 0, 0, 2),
            model,
            seed,
        )
    }

    /// Build a v6 network.
    fn new_v6(model: NetModel, seed: u64) -> Self {
        Self::with_addrs(
            IpAddr::v6([0xfc00, 0, 0, 0, 0, 0, 0, 1]),
            IpAddr::v6([0xfc00, 0, 0, 0, 0, 0, 0, 2]),
            model,
            seed,
        )
    }

    fn with_addrs(addr_a: IpAddr, addr_b: IpAddr, model: NetModel, seed: u64) -> Self {
        let mk = |addr| {
            let mut cfg = Config::with_addr(addr);
            cfg.mtu = 1500;
            cfg
        };
        let mut net = Net {
            a: Box::new(Stack::new(mk(addr_a))),
            b: Box::new(Stack::new(mk(addr_b))),
            addr_a,
            addr_b,
            clock: Instant::from_secs(1),
            wire: Vec::new(),
            timers: Vec::new(),
            model,
            rng: Rng::new(seed),
            seq: 0,
            events: Vec::new(),
            dropped: 0,
            drain_policy: DrainPolicy::Eager,
        };
        net.pump();
        net
    }

    /// Apply a custom config to both hosts (rebuilds the stacks).
    fn reconfigure(&mut self, mut cfg_a: Config, mut cfg_b: Config) {
        cfg_a.local_addrs = Config::with_addr(self.addr_a).local_addrs;
        cfg_b.local_addrs = Config::with_addr(self.addr_b).local_addrs;
        *self.a = Stack::new(cfg_a);
        *self.b = Stack::new(cfg_b);
        self.timers.clear();
        self.wire.clear();
        self.pump();
    }

    fn stack(&mut self, host: Host) -> &mut Stack<8, 16384, 16384> {
        match host {
            Host::A => &mut self.a,
            Host::B => &mut self.b,
        }
    }

    /// Read-only access for stats/state queries.
    fn host(&self, host: Host) -> &Stack<8, 16384, 16384> {
        match host {
            Host::A => &self.a,
            Host::B => &self.b,
        }
    }

    /// Endpoint of `host` on `port`.
    fn endpoint(&self, host: Host, port: u16) -> SocketAddr {
        SocketAddr::new(
            if host == Host::A {
                self.addr_a
            } else {
                self.addr_b
            },
            port,
        )
    }

    /// Current virtual time.
    fn now(&self) -> Instant {
        self.clock
    }

    /// Drain all pending actions from both hosts until quiescent, scheduling
    /// transmissions on the wire and timers in the timer list. Idempotent.
    fn pump(&mut self) {
        for host in [Host::A, Host::B] {
            self.drain(host);
        }
    }

    /// Drain `host` honoring the configured policy: a lazy runtime skips
    /// this opportunity (seed-driven) and catches up at a later drain.
    fn maybe_drain(&mut self, host: Host) {
        match self.drain_policy {
            DrainPolicy::Eager => self.drain(host),
            DrainPolicy::Lazy { skip_permille } => {
                if !self.rng.chance_permille(skip_permille) {
                    self.drain(host);
                }
            }
        }
    }

    fn drain(&mut self, host: Host) {
        let now = self.clock;
        let mut tx = [0u8; FRAME];
        let mut fuel = DRAIN_FUEL;
        loop {
            let action = self.stack(host).poll_action(now, &mut tx);
            let Some(action) = action else { break };
            fuel -= 1;
            assert!(
                fuel > 0,
                "poll_action did not quiesce within {DRAIN_FUEL} actions: livelock"
            );
            match action {
                Action::Nothing => {}
                Action::RequestEntropy => {
                    let seed = match host {
                        Host::A => [0x11; 16],
                        Host::B => [0x22; 16],
                    };
                    self.stack(host).on_entropy(seed);
                }
                Action::Transmit { len } => {
                    self.launch(host, &tx[..len]);
                }
                Action::StartTimer { key, after } => {
                    self.arm(host, key, now + after);
                }
                Action::CancelTimer { key } => {
                    self.cancel(host, key);
                }
                Action::App(event) => {
                    self.events.push(Captured { host, event });
                }
            }
        }
    }

    fn launch(&mut self, from: Host, bytes: &[u8]) {
        let mut deliver = self.clock + self.model.delay;
        if self.model.jitter.as_micros() > 0 {
            deliver += Duration::from_micros(
                self.rng.below(self.model.jitter.as_micros() as u32 + 1) as u64,
            );
        }
        if self.rng.chance_permille(self.model.loss_permille) {
            self.dropped += bytes.len() as u64;
            return;
        }
        let mut payload = bytes.to_vec();
        if self.rng.chance_permille(self.model.corrupt_permille) && !payload.is_empty() {
            let i = self.rng.below(payload.len() as u32) as usize;
            payload[i] ^= 0x20;
        }
        self.push_wire(from.other(), deliver, payload.clone());
        if self.rng.chance_permille(self.model.dup_permille) {
            let extra = deliver + Duration::from_millis(1 + self.rng.below(5) as u64);
            self.push_wire(from.other(), extra, payload);
        }
    }

    fn push_wire(&mut self, to: Host, deliver_at: Instant, bytes: Vec<u8>) {
        self.seq += 1;
        self.wire.push(InFlight {
            deliver_at,
            to,
            bytes,
            seq: self.seq,
        });
    }

    fn arm(&mut self, host: Host, key: TimerKey, fire_at: Instant) {
        for t in self.timers.iter_mut() {
            if t.host == host && same_key(t.key, key) && t.live {
                t.fire_at = fire_at;
                return;
            }
        }
        self.timers.push(Timer {
            fire_at,
            host,
            key,
            live: true,
        });
    }

    fn cancel(&mut self, host: Host, key: TimerKey) {
        for t in self.timers.iter_mut() {
            if t.host == host && same_key(t.key, key) {
                t.live = false;
            }
        }
    }

    /// Advance to the next scheduled event (delivery or timer), process it,
    /// and pump. Returns false when nothing is pending.
    fn step(&mut self) -> bool {
        let next_wire = self.wire.iter().map(|p| p.deliver_at).min();
        let next_timer = self
            .timers
            .iter()
            .filter(|t| t.live)
            .map(|t| t.fire_at)
            .min();
        let next = match (next_wire, next_timer) {
            (None, None) => return false,
            (Some(w), None) => w,
            (None, Some(t)) => t,
            (Some(w), Some(t)) => w.min(t),
        };
        if next > self.clock {
            self.clock = next;
        }

        let due: Vec<(Host, TimerKey)> = self
            .timers
            .iter()
            .filter(|t| t.live && t.fire_at <= self.clock)
            .map(|t| (t.host, t.key))
            .collect();
        for t in self.timers.iter_mut() {
            if t.live && t.fire_at <= self.clock {
                t.live = false;
            }
        }
        for (host, key) in due {
            let now = self.clock;
            self.stack(host).on_timer(now, key);
            self.maybe_drain(host);
        }

        let mut due_wire: Vec<usize> = (0..self.wire.len())
            .filter(|&i| self.wire[i].deliver_at <= self.clock)
            .collect();
        due_wire.sort_by_key(|&i| (self.wire[i].deliver_at, self.wire[i].seq));
        let delivered: Vec<(Host, Vec<u8>)> = due_wire
            .iter()
            .map(|&i| (self.wire[i].to, self.wire[i].bytes.clone()))
            .collect();
        let mut idxs = due_wire;
        idxs.sort_unstable_by(|a, b| b.cmp(a));
        for i in idxs {
            self.wire.swap_remove(i);
        }
        for (to, bytes) in delivered {
            let now = self.clock;
            self.stack(to).on_datagram(now, &bytes);
            self.maybe_drain(to);
        }
        true
    }

    /// Run until quiescent or `max_steps` exhausted. Returns steps taken.
    fn run(&mut self, max_steps: usize) -> usize {
        let mut n = 0;
        while n < max_steps && self.step() {
            n += 1;
        }
        n
    }

    /// Advance virtual time by `d` with no traffic (e.g. to expire TIME-WAIT
    /// while the wire is idle), processing any timers that come due.
    fn idle(&mut self, d: Duration) {
        let target = self.clock + d;
        while let Some(next) = self
            .timers
            .iter()
            .filter(|t| t.live && t.fire_at <= target)
            .map(|t| t.fire_at)
            .min()
        {
            self.clock = next;
            if !self.step() {
                break;
            }
        }
        if target > self.clock {
            self.clock = target;
        }
    }

    fn listen(&mut self, host: Host, port: u16) {
        self.stack(host).listen(port).expect("listen");
        self.maybe_drain(host);
    }

    fn connect(&mut self, host: Host, to: SocketAddr) -> SocketId {
        let now = self.clock;
        let id = self.stack(host).connect(now, to).expect("connect");
        self.maybe_drain(host);
        id
    }

    fn send(&mut self, host: Host, sock: SocketId, data: &[u8]) -> usize {
        let n = self.stack(host).send(sock, data).expect("send");
        self.maybe_drain(host);
        n
    }

    /// Fallible send: returns `None` if the socket is gone (e.g. it timed out
    /// under heavy loss). Used by the fuzzer where teardown is expected.
    fn try_send(&mut self, host: Host, sock: SocketId, data: &[u8]) -> Option<usize> {
        let r = self.stack(host).send(sock, data).ok();
        self.maybe_drain(host);
        r
    }

    /// Fallible recv: `None` if the socket is gone, else bytes read.
    fn try_recv(&mut self, host: Host, sock: SocketId, out: &mut [u8]) -> Option<usize> {
        let r = self.stack(host).recv(sock, out).ok();
        self.maybe_drain(host);
        r
    }

    /// True if the handle still maps to a live connection.
    fn alive(&self, host: Host, sock: SocketId) -> bool {
        match host {
            Host::A => self.a.state_of(sock).is_some(),
            Host::B => self.b.state_of(sock).is_some(),
        }
    }

    fn close(&mut self, host: Host, sock: SocketId) {
        let now = self.clock;
        self.stack(host).close(now, sock).expect("close");
        self.maybe_drain(host);
    }

    fn abort(&mut self, host: Host, sock: SocketId) {
        let now = self.clock;
        self.stack(host).abort(now, sock).expect("abort");
        self.maybe_drain(host);
    }

    fn recv(&mut self, host: Host, sock: SocketId, out: &mut [u8]) -> usize {
        let n = self.stack(host).recv(sock, out).unwrap_or(0);
        self.maybe_drain(host);
        n
    }

    /// Drain all currently-readable bytes from a socket into a Vec.
    fn recv_all(&mut self, host: Host, sock: SocketId) -> Vec<u8> {
        let mut out = Vec::new();
        let mut buf = [0u8; 4096];
        loop {
            let n = self.stack(host).recv(sock, &mut buf).unwrap_or(0);
            if n == 0 {
                break;
            }
            out.extend_from_slice(&buf[..n]);
        }
        self.maybe_drain(host);
        out
    }

    /// Two-sided timer-fidelity oracle. Force-drains `host` to quiescence,
    /// then asserts that the timers this harness has armed for `sock` are
    /// exactly the deadlines the stack currently wants. Any divergence is a
    /// boundary bug: a lost, phantom, or mis-keyed Start/CancelTimer. A
    /// wedged connection ("owes the network work but nothing scheduled to
    /// wake it") shows up here as desired-without-armed.
    fn assert_timer_fidelity(&mut self, host: Host, sock: SocketId) {
        self.drain(host);
        const KINDS: [TimerKind; 4] = [
            TimerKind::Rexmit,
            TimerKind::Persist,
            TimerKind::DelAck,
            TimerKind::Wait,
        ];
        let desired = self.host(host).timer_deadlines_of(sock);
        for (i, kind) in KINDS.into_iter().enumerate() {
            let key = TimerKey::Conn { sock, kind };
            let armed = self
                .timers
                .iter()
                .find(|t| t.live && t.host == host && t.key == key)
                .map(|t| t.fire_at);
            let want = desired.and_then(|d| d[i]);
            match (want, armed) {
                (None, None) => {}
                (Some(w), Some(a)) => {
                    assert!(
                        a == w || (w <= self.clock && a >= w && a <= self.clock),
                        "{host:?}/{kind:?}: armed {a:?} but stack wants {w:?} (clock {:?})",
                        self.clock
                    );
                }
                (want, armed) => panic!(
                    "{host:?}/{kind:?}: stack wants {want:?} but runtime armed {armed:?} - \
                     lost or phantom timer (boundary bug)"
                ),
            }
        }
    }

    fn first_connected(&self, host: Host) -> Option<SocketId> {
        self.events.iter().find_map(|c| match c.event {
            AppEvent::Connected { sock, .. } if c.host == host => Some(sock),
            _ => None,
        })
    }

    fn accepted_socket(&self, host: Host) -> Option<(SocketId, u16)> {
        self.events.iter().find_map(|c| match c.event {
            AppEvent::Connected {
                sock,
                via_listener: Some(p),
            } if c.host == host => Some((sock, p)),
            _ => None,
        })
    }

    fn closed_reason(&self, host: Host, sock: SocketId) -> Option<CloseReason> {
        self.events.iter().rev().find_map(|c| match c.event {
            AppEvent::Closed { sock: s, reason } if c.host == host && s == sock => Some(reason),
            _ => None,
        })
    }

    fn saw_peer_fin(&self, host: Host, sock: SocketId) -> bool {
        self.events
            .iter()
            .any(|c| c.host == host && c.event == AppEvent::PeerFinReceived { sock })
    }

    /// Count of `PeerFinReceived` events delivered for a socket. The
    /// single-FIN oracle: this MUST be <= 1 over a connection's lifetime
    /// regardless of what arrives on the wire.
    fn peer_fin_count(&self, host: Host, sock: SocketId) -> usize {
        self.count_events(|c| c.host == host && c.event == AppEvent::PeerFinReceived { sock })
    }

    fn count_events(&self, pred: impl Fn(&Captured) -> bool) -> usize {
        self.events.iter().filter(|c| pred(c)).count()
    }
}

fn same_key(a: TimerKey, b: TimerKey) -> bool {
    a == b
}

/// Standard one-shot helper: establish A->B on `port`, returning both socket
/// handles `(client, server)`.
fn establish(net: &mut Net, port: u16) -> (SocketId, SocketId) {
    net.listen(Host::B, port);
    let server_ep = net.endpoint(Host::B, port);
    let client = net.connect(Host::A, server_ep);
    net.run(100);
    let server = net.accepted_socket(Host::B).expect("server accepted").0;
    assert_eq!(
        net.state_a(client),
        Some(TcpState::Established)
    );
    (client, server)
}

impl Net {
    fn state_a(&self, sock: SocketId) -> Option<TcpState> {
        self.a.state_of(sock)
    }
    fn state_b(&self, sock: SocketId) -> Option<TcpState> {
        self.b.state_of(sock)
    }

    /// Local port host A bound to a connection.
    fn client_port(&self, sock: SocketId) -> u16 {
        self.a.local_port_of(sock).expect("live socket")
    }

    /// RCV.NXT of an A-side connection (what A will accept next).
    fn a_rcv_nxt(&self, sock: SocketId) -> u32 {
        self.a.rcv_nxt_of(sock).expect("live socket")
    }

    /// SND.UNA of an A-side connection.
    fn a_snd_una(&self, sock: SocketId) -> u32 {
        self.a.snd_state_of(sock).expect("live socket").0
    }

    /// SND.WND of an A-side connection (peer's advertised window).
    fn a_snd_wnd(&self, sock: SocketId) -> u32 {
        self.a.snd_state_of(sock).expect("live socket").2
    }

    /// Drain both hosts' action queues after injecting a raw datagram with
    /// `on_datagram` directly (which does not auto-drain like the wrappers).
    fn pump_public(&mut self) {
        self.pump();
    }
}

const PORT: u16 = 80;

fn clean() -> Net {
    Net::new(NetModel::default(), 0x5EC)
}

/// Hand-craft a raw IPv4+TCP datagram (for injecting forged segments that no
/// well-behaved peer would send).
fn forge_v4(
    src: SocketAddr,
    dst: SocketAddr,
    seq: u32,
    ack: u32,
    flags: TcpFlags,
    window: u16,
    payload: &[u8],
) -> Vec<u8> {
    let (IpAddr::V4(s), IpAddr::V4(d)) = (src.ip, dst.ip) else {
        panic!("v4 only")
    };
    let mut buf = vec![0u8; 1500];
    let emit = TcpEmit {
        src_port: src.port,
        dst_port: dst.port,
        seq,
        ack,
        flags,
        window,
        options: TcpOptionsEmit::default(),
    };
    let seg_len = emit.emit(
        &src.ip,
        &dst.ip,
        (payload, &[]),
        &mut buf[ipv4::HEADER_LEN..],
    );
    ipv4::Ipv4Emit::datagram(s, d, proto::TCP, 64, 1, false).emit(seg_len, &mut buf);
    buf.truncate(ipv4::HEADER_LEN + seg_len);
    buf
}

#[test]
fn blind_rst_outside_window_is_ignored() {
    let mut net = clean();
    let (client, server) = establish(&mut net, PORT);
    let _ = server;

    let a = net.endpoint(Host::A, net.client_port(client));
    let b = net.endpoint(Host::B, PORT);

    let bogus = forge_v4(b, a, 0x4000_0000, 0, TcpFlags(TcpFlags::RST), 0, &[]);
    let now = net.now();
    net.a.on_datagram(now, &bogus);
    net.pump_public();
    net.run(50);
    assert_eq!(
        net.state_a(client),
        Some(TcpState::Established),
        "blind RST must not tear down the connection"
    );
}

#[test]
fn in_window_rst_triggers_challenge_then_legit_rst_closes() {
    let mut net = clean();
    let (client, _server) = establish(&mut net, PORT);
    let a = net.endpoint(Host::A, net.client_port(client));
    let b = net.endpoint(Host::B, PORT);

    let before = net.a.stats().challenges_granted;
    let rcv_nxt = net.a_rcv_nxt(client);
    let inexact = forge_v4(b, a, rcv_nxt.wrapping_add(5), 0, TcpFlags(TcpFlags::RST), 0, &[]);
    let now = net.now();
    net.a.on_datagram(now, &inexact);
    net.pump_public();
    net.run(50);
    assert_eq!(
        net.state_a(client),
        Some(TcpState::Established),
        "inexact RST -> challenge, not close"
    );
    assert!(
        net.a.stats().challenges_granted > before,
        "a challenge ACK was sent"
    );
}

#[test]
fn blind_syn_in_window_is_challenged_not_accepted() {
    let mut net = clean();
    let (client, _server) = establish(&mut net, PORT);
    let a = net.endpoint(Host::A, net.client_port(client));
    let b = net.endpoint(Host::B, PORT);

    let rcv_nxt = net.a_rcv_nxt(client);
    let before = net.a.stats().challenges_granted;
    let forged_syn = forge_v4(b, a, rcv_nxt, 0, TcpFlags(TcpFlags::SYN), 1000, &[]);
    let now = net.now();
    net.a.on_datagram(now, &forged_syn);
    net.pump_public();
    net.run(50);
    assert_eq!(net.state_a(client), Some(TcpState::Established));
    assert!(net.a.stats().challenges_granted > before);
}

#[test]
fn challenge_ack_rate_limited() {
    let mut net = clean();
    let (client, _server) = establish(&mut net, PORT);
    let a = net.endpoint(Host::A, net.client_port(client));
    let b = net.endpoint(Host::B, PORT);
    let rcv_nxt = net.a_rcv_nxt(client);

    let now = net.now();
    for i in 0..100u32 {
        let seg = forge_v4(b, a, rcv_nxt.wrapping_add(7 + i), 0, TcpFlags(TcpFlags::RST), 0, &[]);
        net.a.on_datagram(now, &seg);
    }
    net.pump_public();
    let granted = net.a.stats().challenges_granted;
    let limited = net.a.stats().challenges_limited;
    assert!(granted <= net.a.config().challenge_acks_per_sec as u64 + 1);
    assert!(limited > 0, "most forged segments were rate-limited");
    assert_eq!(net.state_a(client), Some(TcpState::Established));
}

#[test]
fn isns_are_unpredictable_across_connections() {
    let mut net = clean();
    let mut isns = Vec::new();
    for p in 5000..5008u16 {
        net.listen(Host::B, p);
        let ep = net.endpoint(Host::B, p);
        let c = net.connect(Host::A, ep);
        net.run(50);
        isns.push(net.a_snd_una(c));
    }
    for i in 0..isns.len() {
        for j in i + 1..isns.len() {
            assert_ne!(isns[i], isns[j], "ISNs collided");
        }
    }
    let d0 = isns[1].wrapping_sub(isns[0]);
    let d1 = isns[2].wrapping_sub(isns[1]);
    assert_ne!(d0, d1, "ISN deltas are constant - predictable generator");
}

#[test]
fn zero_window_then_reopen_via_persist() {
    let mut net = clean();
    let (client, server) = establish(&mut net, PORT);

    let cap = 16 * 1024;
    let payload = vec![0x5Au8; cap * 2];
    let mut offered = 0;
    for _ in 0..500 {
        if offered < payload.len() {
            offered += net.send(Host::A, client, &payload[offered..]);
        }
        if !net.step() {
            break;
        }
    }
    assert!(
        net.a_snd_wnd(client) <= 1,
        "peer advertised (near) zero window"
    );

    let mut received = net.recv_all(Host::B, server).len();
    for _ in 0..3000 {
        if offered < payload.len() {
            offered += net.send(Host::A, client, &payload[offered..]);
        }
        net.step();
        received += net.recv_all(Host::B, server).len();
        if received >= payload.len() {
            break;
        }
    }
    net.run(5000);
    received += net.recv_all(Host::B, server).len();
    assert_eq!(
        received,
        payload.len(),
        "transfer resumed after the window reopened"
    );
}

#[test]
fn icmp_echo_request_is_answered() {
    let mut net = clean();
    let before = net.b.stats().echo_tx;
    let mut buf = vec![0u8; 64];
    let body = b"ping-payload";
    let icmp_len = tcp_sans_io::wire::icmp::emit_v4(
        tcp_sans_io::wire::icmp::v4::ECHO_REQUEST,
        0,
        [0, 1, 0, 9],
        body,
        &mut buf[ipv4::HEADER_LEN..],
    );
    let IpAddr::V4(s) = net.addr_a else {
        unreachable!()
    };
    let IpAddr::V4(d) = net.addr_b else {
        unreachable!()
    };
    ipv4::Ipv4Emit::datagram(s, d, proto::ICMP, 64, 1, false).emit(icmp_len, &mut buf);
    buf.truncate(ipv4::HEADER_LEN + icmp_len);

    let now = net.now();
    net.b.on_datagram(now, &buf);
    net.pump_public();
    assert_eq!(
        net.b.stats().echo_tx,
        before + 1,
        "an echo reply was generated"
    );
}

#[test]
fn fragmented_ip_datagram_reassembles_into_a_segment() {
    let mut net = clean();
    net.listen(Host::B, PORT);
    let a = net.endpoint(Host::A, 40000);
    let b = net.endpoint(Host::B, PORT);

    let payload = vec![0u8; 32];
    let syn = forge_v4(a, b, 1000, 0, TcpFlags(TcpFlags::SYN), 4096, &payload);
    let (IpAddr::V4(s), IpAddr::V4(d)) = (a.ip, b.ip) else {
        unreachable!()
    };
    let tcp_seg = &syn[ipv4::HEADER_LEN..];

    let split = 24;
    let mut f0 = vec![0u8; ipv4::HEADER_LEN + split];
    let mut e0 = ipv4::Ipv4Emit::datagram(s, d, proto::TCP, 64, 7, false);
    e0.more_frags = true;
    e0.emit(split, &mut f0);
    f0[ipv4::HEADER_LEN..].copy_from_slice(&tcp_seg[..split]);

    let rest = tcp_seg.len() - split;
    let mut f1 = vec![0u8; ipv4::HEADER_LEN + rest];
    let mut e1 = ipv4::Ipv4Emit::datagram(s, d, proto::TCP, 64, 7, false);
    e1.frag_offset = split as u16;
    e1.emit(rest, &mut f1);
    f1[ipv4::HEADER_LEN..].copy_from_slice(&tcp_seg[split..]);

    let now = net.now();
    net.b.on_datagram(now, &f0);
    net.b.on_datagram(now, &f1);
    net.pump_public();
    net.run(50);
    assert!(
        net.b.stats().segs_rx >= 1,
        "reassembled segment reached TCP"
    );
}

#[test]
fn time_wait_absorbs_late_duplicate_and_expires() {
    let mut net = clean();
    let (client, server) = establish(&mut net, PORT);
    net.close(Host::A, client);
    net.close(Host::B, server);
    while net.state_a(client) != Some(TcpState::TimeWait) {
        assert!(net.step(), "reached quiescence before TIME-WAIT");
    }
    net.idle(Duration::from_secs(10));
    assert_eq!(net.state_a(client), Some(TcpState::TimeWait));
    net.idle(Duration::from_secs(130));
    assert_eq!(net.state_a(client), None);
    assert_eq!(
        net.closed_reason(Host::A, client),
        Some(CloseReason::Normal)
    );
}

#[test]
fn checksum_is_verified_on_ingress() {
    let mut net = clean();
    let (client, _server) = establish(&mut net, PORT);
    let a = net.endpoint(Host::A, net.client_port(client));
    let b = net.endpoint(Host::B, PORT);
    let mut seg = forge_v4(
        b,
        a,
        net.a_rcv_nxt(client),
        net.a_snd_una(client),
        TcpFlags(TcpFlags::ACK),
        100,
        b"x",
    );
    let last = seg.len() - 1;
    seg[last] ^= 0xff;
    let before = net.a.stats().rx_malformed;
    let now = net.now();
    net.a.on_datagram(now, &seg);
    assert_eq!(
        net.a.stats().rx_malformed,
        before + 1,
        "bad-checksum segment dropped"
    );
    assert_eq!(net.state_a(client), Some(TcpState::Established));
}

/// A fixed, observable per-second challenge-ACK budget is a side channel. With
/// keyed jitter, draining the bucket in adjacent seconds yields different
/// counts.
#[test]
fn challenge_ack_budget_is_jittered_per_second() {
    let mut net = clean();
    let (client, _server) = establish(&mut net, PORT);
    let a = net.endpoint(Host::A, net.client_port(client));
    let b = net.endpoint(Host::B, PORT);
    let rcv_nxt = net.a_rcv_nxt(client);

    let mut counts = Vec::new();
    for _sec in 0..6 {
        let before = net.a.stats().challenges_granted;
        let now = net.now();
        for i in 0..50u32 {
            let seg = forge_v4(b, a, rcv_nxt.wrapping_add(1 + i), 0, TcpFlags(TcpFlags::RST), 0, &[]);
            net.a.on_datagram(now, &seg);
        }
        net.pump_public();
        counts.push(net.a.stats().challenges_granted - before);
        net.idle(Duration::from_millis(1100));
    }
    let cap = net.a.config().challenge_acks_per_sec as u64;
    assert!(
        counts.iter().all(|&c| c >= cap / 2 && c <= cap),
        "{counts:?}"
    );
    assert!(
        !counts.windows(2).all(|w| w[0] == w[1]),
        "challenge-ACK budget is constant across seconds: {counts:?}"
    );
}

/// A full-MSS data segment carrying SACK blocks must still fit the path MTU.
#[test]
fn full_mss_segment_with_sack_blocks_fits_mtu() {
    let mut net = clean();
    let (client, server) = establish(&mut net, PORT);
    let a = net.endpoint(Host::A, net.client_port(client));
    let b = net.endpoint(Host::B, PORT);
    let rcv_nxt = net.a_rcv_nxt(client);
    let snd_una = net.a_snd_una(client);

    let now = net.now();
    for i in 0..4u32 {
        let seq = rcv_nxt.wrapping_add(100 + i * 8);
        let seg = forge_v4(b, a, seq, snd_una, TcpFlags(TcpFlags::ACK), 16384, &[0x11; 4]);
        net.a.on_datagram(now, &seg);
    }
    net.pump_public();

    let mtu = 1500usize;
    let payload = vec![0x77u8; 8 * mtu];
    let n = net.a.send(client, &payload).expect("send");
    assert!(n > 0);
    let now = net.now();
    let mut tx = [0u8; FRAME];
    let mut saw_full = false;
    while let Some(act) = net.a.poll_action(now, &mut tx) {
        if let Action::Transmit { len } = act {
            assert!(
                len <= mtu,
                "emitted datagram {len} > MTU {mtu} (SACK option \
                 overhead not charged against eff_send_mss)"
            );
            saw_full |= len > mtu - 100;
        }
    }
    assert!(saw_full, "expected at least one near-MSS data segment");
    let _ = server;
}

/// An injected FIN at an *earlier* in-window sequence must not
/// overwrite a later, legitimately-recorded peer FIN - that would truncate
/// the application stream at the injected position.
#[test]
fn injected_earlier_fin_does_not_truncate_stream() {
    let mut net = clean();
    let (client, _server) = establish(&mut net, PORT);
    let a = net.endpoint(Host::A, net.client_port(client));
    let b = net.endpoint(Host::B, PORT);
    let rcv_nxt = net.a_rcv_nxt(client);
    let snd_una = net.a_snd_una(client);
    let now = net.now();

    let real_fin = forge_v4(
        b,
        a,
        rcv_nxt.wrapping_add(200),
        snd_una,
        TcpFlags(TcpFlags::ACK).union(TcpFlags(TcpFlags::FIN)),
        16384,
        &[],
    );
    net.a.on_datagram(now, &real_fin);
    let forged_fin = forge_v4(
        b,
        a,
        rcv_nxt.wrapping_add(50),
        snd_una,
        TcpFlags(TcpFlags::ACK).union(TcpFlags(TcpFlags::FIN)),
        16384,
        &[],
    );
    net.a.on_datagram(now, &forged_fin);
    let body = forge_v4(b, a, rcv_nxt, snd_una, TcpFlags(TcpFlags::ACK), 16384, &[0x42; 200]);
    net.a.on_datagram(now, &body);
    net.pump_public();

    let got = net.recv_all(Host::A, client);
    assert_eq!(
        got.len(),
        200,
        "forged earlier FIN truncated the stream"
    );
}

/// Saturating the
/// out-of-order budget with far-offset 1-byte segments must not stop
/// in-order data from being delivered.
#[test]
fn ooo_budget_saturation_cannot_wedge_receive_path() {
    let mut net = clean();
    let (client, server) = establish(&mut net, PORT);
    let a = net.endpoint(Host::A, net.client_port(client));
    let b = net.endpoint(Host::B, PORT);
    let rcv_nxt = net.a_rcv_nxt(client);
    let snd_una = net.a_snd_una(client);
    let cap = 16 * 1024u32;

    let now = net.now();
    for i in 0..MAX_OOO_RANGES as u32 {
        let seq = rcv_nxt.wrapping_add(cap - 2 - i * 2);
        let seg = forge_v4(b, a, seq, snd_una, TcpFlags(TcpFlags::ACK), 1000, &[0xEE]);
        net.a.on_datagram(now, &seg);
    }
    net.pump_public();

    let payload = vec![0xAB; 4096];
    assert_eq!(net.send(Host::B, server, &payload), payload.len());
    net.run(500);
    let got = net.recv_all(Host::A, client);
    assert_eq!(
        got.len(),
        payload.len(),
        "in-order data must be delivered even with the OOO budget saturated"
    );
    assert!(got.iter().all(|&b| b == 0xAB));
}

/// RFC 1337: a RST must not destroy TIME-WAIT, even with the exact sequence
/// number.
#[test]
fn time_wait_ignores_rst() {
    let mut net = clean();
    let (client, server) = establish(&mut net, PORT);
    let a = net.endpoint(Host::A, net.client_port(client));
    net.close(Host::A, client);
    for _ in 0..50 {
        net.step();
        if net.state_b(server) == Some(TcpState::CloseWait) {
            break;
        }
    }
    net.close(Host::B, server);
    for _ in 0..50 {
        net.step();
        if net.state_a(client) == Some(TcpState::TimeWait) {
            break;
        }
    }
    assert_eq!(net.state_a(client), Some(TcpState::TimeWait));

    let b = net.endpoint(Host::B, PORT);
    let rcv_nxt = net.a_rcv_nxt(client);
    let exact_rst = forge_v4(b, a, rcv_nxt, 0, TcpFlags(TcpFlags::RST), 0, &[]);
    let now = net.now();
    net.a.on_datagram(now, &exact_rst);
    net.pump_public();
    assert_eq!(
        net.state_a(client),
        Some(TcpState::TimeWait),
        "RST in TIME-WAIT must be ignored (RFC 1337)"
    );
    net.idle(Duration::from_secs(130));
    assert_eq!(net.state_a(client), None);
}

/// A peer that goes silent after closing its window must not pin a connection
/// slot forever; the persist budget aborts it.
#[test]
fn silent_zero_window_peer_is_eventually_aborted() {
    let mut net = clean();
    let (client, _server) = establish(&mut net, PORT);
    let a = net.endpoint(Host::A, net.client_port(client));
    let b = net.endpoint(Host::B, PORT);
    let rcv_nxt = net.a_rcv_nxt(client);
    let snd_una = net.a_snd_una(client);

    net.send(Host::A, client, &[1u8; 256]);
    let zero_wnd = forge_v4(b, a, rcv_nxt, snd_una, TcpFlags(TcpFlags::ACK), 0, &[]);
    let now = net.now();
    net.a.on_datagram(now, &zero_wnd);
    net.pump_public();
    net.model.loss_permille = 1000;

    net.idle(Duration::from_secs(60 * 20));
    assert_eq!(
        net.closed_reason(Host::A, client),
        Some(CloseReason::TimedOut),
        "silent zero-window peer must not pin the slot indefinitely"
    );
}

/// TCP from a multicast/broadcast/unspecified source is silently dropped (RFC
/// 1122 section 4.2.3.10): no RST, no SYN-ACK reflection.
#[test]
fn martian_source_addresses_are_dropped() {
    let mut net = clean();
    net.listen(Host::B, PORT);
    let b = net.endpoint(Host::B, PORT);

    let martians = [
        IpAddr::v4(224, 0, 0, 1),
        IpAddr::v4(255, 255, 255, 255),
        IpAddr::v4(0, 0, 0, 0),
        net.addr_b,
    ];
    let tx_before = net.b.stats().tx_datagrams;
    let rst_before = net.b.stats().rst_tx;
    let now = net.now();
    for src in martians {
        let syn = forge_v4(
            SocketAddr::new(src, 40000),
            b,
            1000,
            0,
            TcpFlags(TcpFlags::SYN),
            1000,
            &[],
        );
        net.b.on_datagram(now, &syn);
        let ack = forge_v4(
            SocketAddr::new(src, 40001),
            SocketAddr::new(net.addr_b, 1),
            0,
            1,
            TcpFlags(TcpFlags::ACK),
            0,
            &[],
        );
        net.b.on_datagram(now, &ack);
    }
    net.pump_public();
    assert_eq!(
        net.b.stats().tx_datagrams,
        tx_before,
        "no reply to a martian source"
    );
    assert_eq!(net.b.stats().rst_tx, rst_before);
    assert_eq!(net.b.stats().rx_martian_src as usize, martians.len() * 2);
}

/// A forged FIN at RCV.NXT after the legitimate FIN was already
/// consumed must not advance RCV.NXT or emit a second `PeerFin`.
#[test]
fn fin_is_consumed_at_most_once() {
    let mut net = clean();
    let (client, server) = establish(&mut net, PORT);
    net.close(Host::B, server);
    net.run(200);
    assert_eq!(net.state_a(client), Some(TcpState::CloseWait));
    assert_eq!(net.peer_fin_count(Host::A, client), 1);

    let a = net.endpoint(Host::A, net.client_port(client));
    let b = net.endpoint(Host::B, PORT);
    let rcv_nxt = net.a_rcv_nxt(client);
    let snd_una = net.a_snd_una(client);
    let now = net.now();
    for i in 0..5 {
        let seg = forge_v4(
            b,
            a,
            rcv_nxt.wrapping_add(i),
            snd_una,
            TcpFlags(TcpFlags::ACK).union(TcpFlags(TcpFlags::FIN)),
            1000,
            &[],
        );
        net.a.on_datagram(now, &seg);
    }
    net.pump_public();
    net.run(50);
    assert_eq!(
        net.a_rcv_nxt(client),
        rcv_nxt,
        "RCV.NXT drifted on forged post-FIN FINs"
    );
    assert_eq!(
        net.peer_fin_count(Host::A, client),
        1,
        "PeerFin delivered more than once"
    );
}

/// Ephemeral source ports are not a predictable sequence.
#[test]
fn ephemeral_ports_are_not_sequential() {
    let mut net = clean();
    let mut ports = Vec::new();
    for p in 6000..6006u16 {
        net.listen(Host::B, p);
        let c = net.connect(Host::A, net.endpoint(Host::B, p));
        ports.push(net.client_port(c));
        net.run(50);
    }
    let deltas: Vec<i32> = ports
        .windows(2)
        .map(|w| w[1] as i32 - w[0] as i32)
        .collect();
    assert!(
        !deltas.iter().all(|&d| d == deltas[0]),
        "ephemeral ports are a constant-delta sequence (RFC 6056 violated): {ports:?}"
    );
}

/// A SYN to a synchronized connection consumes a challenge-ACK token whether
/// or not its sequence number is in the window.
#[test]
fn syn_consumes_challenge_token_regardless_of_seq() {
    let mut net = clean();
    let (client, _server) = establish(&mut net, PORT);
    let a = net.endpoint(Host::A, net.client_port(client));
    let b = net.endpoint(Host::B, PORT);

    let granted = |net: &Net| net.a.stats().challenges_granted + net.a.stats().challenges_limited;

    let before = granted(&net);
    let now = net.now();
    net.a
        .on_datagram(now, &forge_v4(b, a, 0x4000_0000, 0, TcpFlags(TcpFlags::SYN), 0, &[]));
    let rcv_nxt = net.a_rcv_nxt(client);
    net.a
        .on_datagram(now, &forge_v4(b, a, rcv_nxt, 0, TcpFlags(TcpFlags::SYN), 0, &[]));
    net.pump_public();
    assert_eq!(
        granted(&net) - before,
        2,
        "both in- and out-of-window SYNs must take the challenge path"
    );
}

#[test]
fn syn_flood_fills_pool_sheds_silently_and_recovers() {
    let mut net = clean();
    net.listen(Host::B, PORT);
    let b = net.endpoint(Host::B, PORT);

    for i in 0..8u16 {
        let src = SocketAddr::new(IpAddr::v4(10, 0, 0, 100), 40_000 + i);
        let syn = forge_v4(src, b, 1_000 + u32::from(i), 0, TcpFlags(TcpFlags::SYN), 1000, &[]);
        let now = net.now();
        net.b.on_datagram(now, &syn);
        net.pump_public();
    }
    let tx_full = net.b.stats().tx_datagrams;
    assert!(tx_full >= 8, "a SYN-ACK per accepted SYN ({tx_full})");

    let rst_before = net.b.stats().rst_tx;
    let src9 = SocketAddr::new(IpAddr::v4(10, 0, 0, 100), 40_900);
    let syn9 = forge_v4(src9, b, 99, 0, TcpFlags(TcpFlags::SYN), 1000, &[]);
    let now = net.now();
    net.b.on_datagram(now, &syn9);
    net.pump_public();
    assert_eq!(
        net.b.stats().tx_datagrams,
        tx_full,
        "shed SYN elicited a reply"
    );
    assert_eq!(net.b.stats().rst_tx, rst_before, "shed SYN must not RST");

    net.idle(Duration::from_secs(300));

    let client = net.connect(Host::A, b);
    net.run(200);
    assert_eq!(
        net.state_a(client),
        Some(TcpState::Established),
        "pool recovered after flood"
    );
}
