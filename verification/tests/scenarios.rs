//! End-to-end scenarios over an in-memory two-host network.
//! 
//! Each test drives two real stacks through the virtual network and asserts on
//! observable behavior: application events, transferred bytes, and connection
//! states.
#![allow(dead_code)]
use tcp_sans_io::config::Config;
use tcp_sans_io::tcp::State as TcpState;
use tcp_sans_io::time::{Duration, Instant};
use tcp_sans_io::{
    Action, AppEvent, CloseReason, IpAddr, SocketAddr, SocketId, Stack, TimerKey, TimerKind,
};

/// Maximum datagram the harness will carry (one MTU of headroom).
const FRAME: usize = 2048;

/// Upper bound on `poll_action` calls in one drain. Statically, a quiescing
/// stack can owe at most the action queue (64) + ctl queue (8) + one echo +
/// every connection's sendable window (about 16 KiB / MSS about 12 segments x 8
/// conns) + a sweep's worth of timer diffs - well under 1k. A drain that
/// exceeds this bound means `poll_action` is not quiescing: a livelock.
const DRAIN_FUEL: usize = 8192;

/// How faithfully the harness honors the obligation to drain.
#[derive(Debug, Clone, Copy, PartialEq, Eq)]
enum DrainPolicy {
    /// Drain to `None` after every event/API call (a compliant runtime).
    Eager,
    /// Skip each drain opportunity with probability `skip_permille`,
    /// seed-driven - a runtime that falls behind and catches up later.
    /// Models GC pauses, batching hosts, starved threads. The stack's
    /// degraded-mode claim ("delays, never loses") is tested in this mode.
    Lazy {
        /// Probability per mille of skipping a drain opportunity.
        skip_permille: u32,
    },
}

/// A datagram in flight, scheduled to arrive at `deliver_at`.
struct InFlight {
    deliver_at: Instant,
    to: Host,
    bytes: Vec<u8>,
    /// Tie-breaker so equal arrival times stay FIFO (deterministic order).
    seq: u64,
}

/// Which host.
#[derive(Debug, Clone, Copy, PartialEq, Eq)]
enum Host {
    A,
    B,
}

impl Host {
    fn other(self) -> Host {
        match self {
            Host::A => Host::B,
            Host::B => Host::A,
        }
    }
    fn idx(self) -> usize {
        self as usize
    }
}

/// A pending virtual timer.
#[derive(Clone, Copy)]
struct Timer {
    fire_at: Instant,
    host: Host,
    key: TimerKey,
    live: bool,
}

/// Network impairments applied to each datagram. Deterministic given the
/// harness RNG seed.
#[derive(Debug, Clone, Copy)]
struct NetModel {
    /// One-way propagation delay.
    delay: Duration,
    /// Drop probability in [0,1000): `loss` per mille.
    loss_permille: u32,
    /// Duplicate probability per mille.
    dup_permille: u32,
    /// Extra jitter up to this much, added pseudo-randomly.
    jitter: Duration,
    /// Corrupt-a-byte probability per mille (exercises checksum rejection).
    corrupt_permille: u32,
}

impl Default for NetModel {
    fn default() -> Self {
        NetModel {
            delay: Duration::from_millis(10),
            loss_permille: 0,
            dup_permille: 0,
            jitter: Duration::zero(),
            corrupt_permille: 0,
        }
    }
}

/// Captured application event with the host it fired on.
#[derive(Debug, Clone, Copy, PartialEq, Eq)]
struct Captured {
    host: Host,
    event: AppEvent,
}

/// Deterministic xorshift64* PRNG (no external deps, replayable).
struct Rng(u64);

impl Rng {
    fn new(seed: u64) -> Self {
        Rng(seed | 1)
    }
    fn next_u64(&mut self) -> u64 {
        let mut x = self.0;
        x ^= x >> 12;
        x ^= x << 25;
        x ^= x >> 27;
        self.0 = x;
        x.wrapping_mul(0x2545_F491_4F6C_DD1D)
    }
    fn below(&mut self, bound: u32) -> u32 {
        if bound == 0 {
            return 0;
        }
        (self.next_u64() % bound as u64) as u32
    }
    fn chance_permille(&mut self, permille: u32) -> bool {
        self.below(1000) < permille
    }
}

/// Two stacks and the wire between them.
///
/// The stacks are boxed: each `Stack<8, 16384, 16384>` embeds all connection buffers
/// inline (no heap inside the core), so keeping two by value in a test-thread
/// stack frame would overflow it. The box moves that fixed arena to the heap
/// - exactly what a real runtime does when it places the stack in a `static`
/// or an allocation.
struct Net {
    a: Box<Stack<8, 16384, 16384>>,
    b: Box<Stack<8, 16384, 16384>>,
    addr_a: IpAddr,
    addr_b: IpAddr,
    clock: Instant,
    wire: Vec<InFlight>,
    timers: Vec<Timer>,
    model: NetModel,
    rng: Rng,
    seq: u64,
    events: Vec<Captured>,
    /// Total bytes the harness chose to drop (for assertions/logging).
    dropped: u64,
    /// Drain discipline (default: compliant `Eager`).
    drain_policy: DrainPolicy,
}

impl Net {
    /// Build a v4 network. `seed` drives all impairment decisions.
    fn new(model: NetModel, seed: u64) -> Self {
        Self::with_addrs(
            IpAddr::v4(10, 0, 0, 1),
            IpAddr::v4(10, 0, 0, 2),
            model,
            seed,
        )
    }

    /// Build a v6 network.
    fn new_v6(model: NetModel, seed: u64) -> Self {
        Self::with_addrs(
            IpAddr::v6([0xfc00, 0, 0, 0, 0, 0, 0, 1]),
            IpAddr::v6([0xfc00, 0, 0, 0, 0, 0, 0, 2]),
            model,
            seed,
        )
    }

    fn with_addrs(addr_a: IpAddr, addr_b: IpAddr, model: NetModel, seed: u64) -> Self {
        let mk = |addr| {
            let mut cfg = Config::with_addr(addr);
            cfg.mtu = 1500;
            cfg
        };
        let mut net = Net {
            a: Box::new(Stack::new(mk(addr_a))),
            b: Box::new(Stack::new(mk(addr_b))),
            addr_a,
            addr_b,
            clock: Instant::from_secs(1),
            wire: Vec::new(),
            timers: Vec::new(),
            model,
            rng: Rng::new(seed),
            seq: 0,
            events: Vec::new(),
            dropped: 0,
            drain_policy: DrainPolicy::Eager,
        };
        net.pump();
        net
    }

    /// Apply a custom config to both hosts (rebuilds the stacks).
    fn reconfigure(&mut self, mut cfg_a: Config, mut cfg_b: Config) {
        cfg_a.local_addrs = Config::with_addr(self.addr_a).local_addrs;
        cfg_b.local_addrs = Config::with_addr(self.addr_b).local_addrs;
        *self.a = Stack::new(cfg_a);
        *self.b = Stack::new(cfg_b);
        self.timers.clear();
        self.wire.clear();
        self.pump();
    }

    fn stack(&mut self, host: Host) -> &mut Stack<8, 16384, 16384> {
        match host {
            Host::A => &mut self.a,
            Host::B => &mut self.b,
        }
    }

    /// Read-only access for stats/state queries.
    fn host(&self, host: Host) -> &Stack<8, 16384, 16384> {
        match host {
            Host::A => &self.a,
            Host::B => &self.b,
        }
    }

    /// Endpoint of `host` on `port`.
    fn endpoint(&self, host: Host, port: u16) -> SocketAddr {
        SocketAddr::new(
            if host == Host::A {
                self.addr_a
            } else {
                self.addr_b
            },
            port,
        )
    }

    /// Current virtual time.
    fn now(&self) -> Instant {
        self.clock
    }

    /// Drain all pending actions from both hosts until quiescent, scheduling
    /// transmissions on the wire and timers in the timer list. Idempotent.
    fn pump(&mut self) {
        for host in [Host::A, Host::B] {
            self.drain(host);
        }
    }

    /// Drain `host` honoring the configured policy: a lazy runtime skips
    /// this opportunity (seed-driven) and catches up at a later drain.
    fn maybe_drain(&mut self, host: Host) {
        match self.drain_policy {
            DrainPolicy::Eager => self.drain(host),
            DrainPolicy::Lazy { skip_permille } => {
                if !self.rng.chance_permille(skip_permille) {
                    self.drain(host);
                }
            }
        }
    }

    fn drain(&mut self, host: Host) {
        let now = self.clock;
        let mut tx = [0u8; FRAME];
        let mut fuel = DRAIN_FUEL;
        loop {
            let action = self.stack(host).poll_action(now, &mut tx);
            let Some(action) = action else { break };
            fuel -= 1;
            assert!(
                fuel > 0,
                "poll_action did not quiesce within {DRAIN_FUEL} actions: livelock"
            );
            match action {
                Action::Nothing => {}
                Action::RequestEntropy => {
                    let seed = match host {
                        Host::A => [0x11; 16],
                        Host::B => [0x22; 16],
                    };
                    self.stack(host).on_entropy(seed);
                }
                Action::Transmit { len } => {
                    self.launch(host, &tx[..len]);
                }
                Action::StartTimer { key, after } => {
                    self.arm(host, key, now + after);
                }
                Action::CancelTimer { key } => {
                    self.cancel(host, key);
                }
                Action::App(event) => {
                    self.events.push(Captured { host, event });
                }
            }
        }
    }

    fn launch(&mut self, from: Host, bytes: &[u8]) {
        let mut deliver = self.clock + self.model.delay;
        if self.model.jitter.as_micros() > 0 {
            deliver += Duration::from_micros(
                self.rng.below(self.model.jitter.as_micros() as u32 + 1) as u64,
            );
        }
        if self.rng.chance_permille(self.model.loss_permille) {
            self.dropped += bytes.len() as u64;
            return;
        }
        let mut payload = bytes.to_vec();
        if self.rng.chance_permille(self.model.corrupt_permille) && !payload.is_empty() {
            let i = self.rng.below(payload.len() as u32) as usize;
            payload[i] ^= 0x20;
        }
        self.push_wire(from.other(), deliver, payload.clone());
        if self.rng.chance_permille(self.model.dup_permille) {
            let extra = deliver + Duration::from_millis(1 + self.rng.below(5) as u64);
            self.push_wire(from.other(), extra, payload);
        }
    }

    fn push_wire(&mut self, to: Host, deliver_at: Instant, bytes: Vec<u8>) {
        self.seq += 1;
        self.wire.push(InFlight {
            deliver_at,
            to,
            bytes,
            seq: self.seq,
        });
    }

    fn arm(&mut self, host: Host, key: TimerKey, fire_at: Instant) {
        for t in self.timers.iter_mut() {
            if t.host == host && same_key(t.key, key) && t.live {
                t.fire_at = fire_at;
                return;
            }
        }
        self.timers.push(Timer {
            fire_at,
            host,
            key,
            live: true,
        });
    }

    fn cancel(&mut self, host: Host, key: TimerKey) {
        for t in self.timers.iter_mut() {
            if t.host == host && same_key(t.key, key) {
                t.live = false;
            }
        }
    }

    /// Advance to the next scheduled event (delivery or timer), process it,
    /// and pump. Returns false when nothing is pending.
    fn step(&mut self) -> bool {
        let next_wire = self.wire.iter().map(|p| p.deliver_at).min();
        let next_timer = self
            .timers
            .iter()
            .filter(|t| t.live)
            .map(|t| t.fire_at)
            .min();
        let next = match (next_wire, next_timer) {
            (None, None) => return false,
            (Some(w), None) => w,
            (None, Some(t)) => t,
            (Some(w), Some(t)) => w.min(t),
        };
        if next > self.clock {
            self.clock = next;
        }

        let due: Vec<(Host, TimerKey)> = self
            .timers
            .iter()
            .filter(|t| t.live && t.fire_at <= self.clock)
            .map(|t| (t.host, t.key))
            .collect();
        for t in self.timers.iter_mut() {
            if t.live && t.fire_at <= self.clock {
                t.live = false;
            }
        }
        for (host, key) in due {
            let now = self.clock;
            self.stack(host).on_timer(now, key);
            self.maybe_drain(host);
        }

        let mut due_wire: Vec<usize> = (0..self.wire.len())
            .filter(|&i| self.wire[i].deliver_at <= self.clock)
            .collect();
        due_wire.sort_by_key(|&i| (self.wire[i].deliver_at, self.wire[i].seq));
        let delivered: Vec<(Host, Vec<u8>)> = due_wire
            .iter()
            .map(|&i| (self.wire[i].to, self.wire[i].bytes.clone()))
            .collect();
        let mut idxs = due_wire;
        idxs.sort_unstable_by(|a, b| b.cmp(a));
        for i in idxs {
            self.wire.swap_remove(i);
        }
        for (to, bytes) in delivered {
            let now = self.clock;
            self.stack(to).on_datagram(now, &bytes);
            self.maybe_drain(to);
        }
        true
    }

    /// Run until quiescent or `max_steps` exhausted. Returns steps taken.
    fn run(&mut self, max_steps: usize) -> usize {
        let mut n = 0;
        while n < max_steps && self.step() {
            n += 1;
        }
        n
    }

    /// Advance virtual time by `d` with no traffic (e.g. to expire TIME-WAIT
    /// while the wire is idle), processing any timers that come due.
    fn idle(&mut self, d: Duration) {
        let target = self.clock + d;
        while let Some(next) = self
            .timers
            .iter()
            .filter(|t| t.live && t.fire_at <= target)
            .map(|t| t.fire_at)
            .min()
        {
            self.clock = next;
            if !self.step() {
                break;
            }
        }
        if target > self.clock {
            self.clock = target;
        }
    }

    fn listen(&mut self, host: Host, port: u16) {
        self.stack(host).listen(port).expect("listen");
        self.maybe_drain(host);
    }

    fn connect(&mut self, host: Host, to: SocketAddr) -> SocketId {
        let now = self.clock;
        let id = self.stack(host).connect(now, to).expect("connect");
        self.maybe_drain(host);
        id
    }

    fn send(&mut self, host: Host, sock: SocketId, data: &[u8]) -> usize {
        let n = self.stack(host).send(sock, data).expect("send");
        self.maybe_drain(host);
        n
    }

    /// Fallible send: returns `None` if the socket is gone (e.g. it timed out
    /// under heavy loss). Used by the fuzzer where teardown is expected.
    fn try_send(&mut self, host: Host, sock: SocketId, data: &[u8]) -> Option<usize> {
        let r = self.stack(host).send(sock, data).ok();
        self.maybe_drain(host);
        r
    }

    /// Fallible recv: `None` if the socket is gone, else bytes read.
    fn try_recv(&mut self, host: Host, sock: SocketId, out: &mut [u8]) -> Option<usize> {
        let r = self.stack(host).recv(sock, out).ok();
        self.maybe_drain(host);
        r
    }

    /// True if the handle still maps to a live connection.
    fn alive(&self, host: Host, sock: SocketId) -> bool {
        match host {
            Host::A => self.a.state_of(sock).is_some(),
            Host::B => self.b.state_of(sock).is_some(),
        }
    }

    fn close(&mut self, host: Host, sock: SocketId) {
        let now = self.clock;
        self.stack(host).close(now, sock).expect("close");
        self.maybe_drain(host);
    }

    fn abort(&mut self, host: Host, sock: SocketId) {
        let now = self.clock;
        self.stack(host).abort(now, sock).expect("abort");
        self.maybe_drain(host);
    }

    fn recv(&mut self, host: Host, sock: SocketId, out: &mut [u8]) -> usize {
        let n = self.stack(host).recv(sock, out).unwrap_or(0);
        self.maybe_drain(host);
        n
    }

    /// Drain all currently-readable bytes from a socket into a Vec.
    fn recv_all(&mut self, host: Host, sock: SocketId) -> Vec<u8> {
        let mut out = Vec::new();
        let mut buf = [0u8; 4096];
        loop {
            let n = self.stack(host).recv(sock, &mut buf).unwrap_or(0);
            if n == 0 {
                break;
            }
            out.extend_from_slice(&buf[..n]);
        }
        self.maybe_drain(host);
        out
    }

    /// Two-sided timer-fidelity oracle. Force-drains `host` to quiescence,
    /// then asserts that the timers this harness has armed for `sock` are
    /// exactly the deadlines the stack currently wants. Any divergence is a
    /// boundary bug: a lost, phantom, or mis-keyed Start/CancelTimer. A
    /// wedged connection ("owes the network work but nothing scheduled to
    /// wake it") shows up here as desired-without-armed.
    fn assert_timer_fidelity(&mut self, host: Host, sock: SocketId) {
        self.drain(host);
        const KINDS: [TimerKind; 4] = [
            TimerKind::Rexmit,
            TimerKind::Persist,
            TimerKind::DelAck,
            TimerKind::Wait,
        ];
        let desired = self.host(host).timer_deadlines_of(sock);
        for (i, kind) in KINDS.into_iter().enumerate() {
            let key = TimerKey::Conn { sock, kind };
            let armed = self
                .timers
                .iter()
                .find(|t| t.live && t.host == host && t.key == key)
                .map(|t| t.fire_at);
            let want = desired.and_then(|d| d[i]);
            match (want, armed) {
                (None, None) => {}
                (Some(w), Some(a)) => {
                    assert!(
                        a == w || (w <= self.clock && a >= w && a <= self.clock),
                        "{host:?}/{kind:?}: armed {a:?} but stack wants {w:?} (clock {:?})",
                        self.clock
                    );
                }
                (want, armed) => panic!(
                    "{host:?}/{kind:?}: stack wants {want:?} but runtime armed {armed:?} - \
                     lost or phantom timer (boundary bug)"
                ),
            }
        }
    }

    fn first_connected(&self, host: Host) -> Option<SocketId> {
        self.events.iter().find_map(|c| match c.event {
            AppEvent::Connected { sock, .. } if c.host == host => Some(sock),
            _ => None,
        })
    }

    fn accepted_socket(&self, host: Host) -> Option<(SocketId, u16)> {
        self.events.iter().find_map(|c| match c.event {
            AppEvent::Connected {
                sock,
                via_listener: Some(p),
            } if c.host == host => Some((sock, p)),
            _ => None,
        })
    }

    fn closed_reason(&self, host: Host, sock: SocketId) -> Option<CloseReason> {
        self.events.iter().rev().find_map(|c| match c.event {
            AppEvent::Closed { sock: s, reason } if c.host == host && s == sock => Some(reason),
            _ => None,
        })
    }

    fn saw_peer_fin(&self, host: Host, sock: SocketId) -> bool {
        self.events
            .iter()
            .any(|c| c.host == host && c.event == AppEvent::PeerFinReceived { sock })
    }

    /// Count of `PeerFinReceived` events delivered for a socket. The
    /// single-FIN oracle: this MUST be <= 1 over a connection's lifetime
    /// regardless of what arrives on the wire.
    fn peer_fin_count(&self, host: Host, sock: SocketId) -> usize {
        self.count_events(|c| c.host == host && c.event == AppEvent::PeerFinReceived { sock })
    }

    fn count_events(&self, pred: impl Fn(&Captured) -> bool) -> usize {
        self.events.iter().filter(|c| pred(c)).count()
    }
}

fn same_key(a: TimerKey, b: TimerKey) -> bool {
    a == b
}

/// Standard one-shot helper: establish A->B on `port`, returning both socket
/// handles `(client, server)`.
fn establish(net: &mut Net, port: u16) -> (SocketId, SocketId) {
    net.listen(Host::B, port);
    let server_ep = net.endpoint(Host::B, port);
    let client = net.connect(Host::A, server_ep);
    net.run(100);
    let server = net.accepted_socket(Host::B).expect("server accepted").0;
    assert_eq!(
        net.state_a(client),
        Some(TcpState::Established)
    );
    (client, server)
}

impl Net {
    fn state_a(&self, sock: SocketId) -> Option<TcpState> {
        self.a.state_of(sock)
    }
    fn state_b(&self, sock: SocketId) -> Option<TcpState> {
        self.b.state_of(sock)
    }

    /// Local port host A bound to a connection.
    fn client_port(&self, sock: SocketId) -> u16 {
        self.a.local_port_of(sock).expect("live socket")
    }

    /// RCV.NXT of an A-side connection (what A will accept next).
    fn a_rcv_nxt(&self, sock: SocketId) -> u32 {
        self.a.rcv_nxt_of(sock).expect("live socket")
    }

    /// SND.UNA of an A-side connection.
    fn a_snd_una(&self, sock: SocketId) -> u32 {
        self.a.snd_state_of(sock).expect("live socket").0
    }

    /// SND.WND of an A-side connection (peer's advertised window).
    fn a_snd_wnd(&self, sock: SocketId) -> u32 {
        self.a.snd_state_of(sock).expect("live socket").2
    }

    /// Drain both hosts' action queues after injecting a raw datagram with
    /// `on_datagram` directly (which does not auto-drain like the wrappers).
    fn pump_public(&mut self) {
        self.pump();
    }
}

const PORT: u16 = 80;

fn clean() -> Net {
    Net::new(NetModel::default(), 0xC0FFEE)
}

#[test]
fn three_way_handshake() {
    let mut net = clean();
    net.listen(Host::B, PORT);
    let server_ep = net.endpoint(Host::B, PORT);
    let client = net.connect(Host::A, server_ep);
    assert_eq!(net.state_a(client), Some(TcpState::SynSent));
    net.run(100);

    assert_eq!(net.state_a(client), Some(TcpState::Established));
    let (server, port) = net.accepted_socket(Host::B).expect("accepted");
    assert_eq!(port, PORT);
    assert_eq!(net.state_b(server), Some(TcpState::Established));
}

#[test]
fn small_message_transfer_both_directions() {
    let mut net = clean();
    let (client, server) = establish(&mut net, PORT);

    assert_eq!(net.send(Host::A, client, b"ping"), 4);
    net.run(100);
    assert_eq!(net.recv_all(Host::B, server), b"ping");

    assert_eq!(net.send(Host::B, server, b"pong!"), 5);
    net.run(100);
    assert_eq!(net.recv_all(Host::A, client), b"pong!");
}

#[test]
fn bulk_transfer_exceeds_window_and_arrives_intact() {
    let mut net = clean();
    let (client, server) = establish(&mut net, PORT);

    let payload: Vec<u8> = (0..40_000u32).map(|i| (i * 31 + 7) as u8).collect();
    let mut offered = 0;
    let mut received = Vec::new();
    let mut buf = [0u8; 8192];
    for _ in 0..2000 {
        if offered < payload.len() {
            offered += net.send(Host::A, client, &payload[offered..]);
        }
        if !net.step() {
            if offered >= payload.len() {
                break;
            }
        }
        let n = net.a.stats();
        let _ = n;
        let got = net.recv(Host::B, server, &mut buf);
        received.extend_from_slice(&buf[..got]);
    }
    net.run(5000);
    received.extend_from_slice(&net.recv_all(Host::B, server));

    assert_eq!(offered, payload.len(), "all bytes were accepted for sending");
    assert_eq!(received.len(), payload.len(), "all bytes were received");
    assert_eq!(received, payload, "stream integrity preserved");
}

#[test]
fn graceful_close_four_way() {
    let mut net = clean();
    let (client, server) = establish(&mut net, PORT);

    net.send(Host::A, client, b"bye");
    net.run(50);
    net.close(Host::A, client);
    net.run(200);

    assert!(net.saw_peer_fin(Host::B, server));
    assert_eq!(net.recv_all(Host::B, server), b"bye");

    net.close(Host::B, server);
    net.run(200);
    net.idle(Duration::from_secs(120));
    assert_eq!(net.state_a(client), None, "client slot reclaimed after TIME-WAIT");
    assert_eq!(net.state_b(server), None, "server slot reclaimed after LAST-ACK");
    assert_eq!(net.closed_reason(Host::B, server), Some(CloseReason::Normal));
}

#[test]
fn half_close_then_bulk_send_drains_in_last_ack() {
    let mut net = clean();
    let (client, server) = establish(&mut net, PORT);

    net.close(Host::A, client);
    for _ in 0..50 {
        net.step();
        if net.state_b(server) == Some(TcpState::CloseWait) {
            break;
        }
    }
    assert_eq!(net.state_b(server), Some(TcpState::CloseWait), "server reached CLOSE-WAIT");
    assert!(
        matches!(net.state_a(client), Some(TcpState::FinWait1 | TcpState::FinWait2)),
        "client half-closed, still reading: {:?}",
        net.state_a(client)
    );

    let payload: Vec<u8> = (0..12_000u32).map(|i| (i ^ 0x5A) as u8).collect();
    let queued = net.send(Host::B, server, &payload);
    assert_eq!(queued, payload.len(), "whole payload fits the send buffer");
    net.close(Host::B, server);

    let mut received = Vec::new();
    for _ in 0..20_000 {
        if !net.step() {
            break;
        }
        received.extend_from_slice(&net.recv_all(Host::A, client));
    }
    net.run(5000);
    received.extend_from_slice(&net.recv_all(Host::A, client));

    assert_eq!(received.len(), payload.len(), "client received every byte despite LAST-ACK close");
    assert_eq!(received, payload, "stream intact across the half-close");
    assert_eq!(net.state_b(server), None, "server reclaimed after LAST-ACK completes");
}

#[test]
fn simultaneous_close() {
    let mut net = clean();
    let (client, server) = establish(&mut net, PORT);
    net.close(Host::A, client);
    net.close(Host::B, server);
    net.run(300);
    net.idle(Duration::from_secs(120));
    assert_eq!(net.state_a(client), None);
    assert_eq!(net.state_b(server), None);
    assert_eq!(net.closed_reason(Host::A, client), Some(CloseReason::Normal));
    assert_eq!(net.closed_reason(Host::B, server), Some(CloseReason::Normal));
}

#[test]
fn connection_refused_to_closed_port() {
    let mut net = clean();
    let server_ep = net.endpoint(Host::B, 9999);
    let client = net.connect(Host::A, server_ep);
    net.run(100);
    assert_eq!(net.closed_reason(Host::A, client), Some(CloseReason::Refused));
    assert!(net.b.stats().rst_tx >= 1, "B emitted a RST for the closed port");
}

#[test]
fn ipv6_handshake_and_transfer() {
    let mut net = Net::new_v6(NetModel::default(), 42);
    net.listen(Host::B, PORT);
    let server_ep = net.endpoint(Host::B, PORT);
    let client = net.connect(Host::A, server_ep);
    net.run(100);
    let server = net.accepted_socket(Host::B).expect("accepted").0;
    assert_eq!(net.state_a(client), Some(TcpState::Established));

    let msg = b"hello over IPv6 with a longer-than-tiny payload";
    net.send(Host::A, client, msg);
    net.run(100);
    assert_eq!(net.recv_all(Host::B, server), msg);
}

#[test]
fn retransmission_recovers_from_total_loss_burst() {
    let model = NetModel { delay: Duration::from_millis(10), loss_permille: 300, ..Default::default() };
    let mut net = Net::new(model, 0xBADF00D);
    net.listen(Host::B, PORT);
    let server_ep = net.endpoint(Host::B, PORT);
    let client = net.connect(Host::A, server_ep);
    net.run(2000);
    let server = net.accepted_socket(Host::B).expect("eventually connects").0;

    let payload: Vec<u8> = (0..12_000u32).map(|i| (i ^ (i >> 3)) as u8).collect();
    let mut offered = 0;
    let mut received = Vec::new();
    let mut buf = [0u8; 4096];
    for _ in 0..20000 {
        if offered < payload.len() {
            offered += net.send(Host::A, client, &payload[offered..]);
        }
        if !net.step() && offered >= payload.len() {
            break;
        }
        let got = net.recv(Host::B, server, &mut buf);
        received.extend_from_slice(&buf[..got]);
    }
    net.run(20000);
    received.extend_from_slice(&net.recv_all(Host::B, server));
    assert_eq!(received, payload, "data integrity preserved despite 30% loss");
    assert!(net.dropped > 0, "the loss model actually dropped datagrams");
}

#[test]
fn reordering_and_duplication_preserve_stream() {
    let model = NetModel {
        delay: Duration::from_millis(10),
        jitter: Duration::from_millis(40),
        dup_permille: 200,
        ..Default::default()
    };
    let mut net = Net::new(model, 7);
    let (client, server) = establish(&mut net, PORT);

    let payload: Vec<u8> = (0..16_000u32).map(|i| (i * 7) as u8).collect();
    let mut offered = 0;
    let mut received = Vec::new();
    let mut buf = [0u8; 4096];
    for _ in 0..20000 {
        if offered < payload.len() {
            offered += net.send(Host::A, client, &payload[offered..]);
        }
        if !net.step() && offered >= payload.len() {
            break;
        }
        let got = net.recv(Host::B, server, &mut buf);
        received.extend_from_slice(&buf[..got]);
    }
    net.run(20000);
    received.extend_from_slice(&net.recv_all(Host::B, server));
    assert_eq!(received, payload);
}

#[test]
fn corruption_is_rejected_by_checksum() {
    let model = NetModel {
        delay: Duration::from_millis(5),
        corrupt_permille: 150,
        ..Default::default()
    };
    let mut net = Net::new(model, 999);
    let (client, server) = establish(&mut net, PORT);
    let payload: Vec<u8> = (0..120_000u32).map(|i| i as u8).collect();
    let mut offered = 0;
    let mut received = Vec::new();
    let mut buf = [0u8; 4096];
    for _ in 0..20000 {
        if offered < payload.len() {
            offered += net.send(Host::A, client, &payload[offered..]);
        }
        if !net.step() && offered >= payload.len() {
            break;
        }
        let got = net.recv(Host::B, server, &mut buf);
        received.extend_from_slice(&buf[..got]);
    }
    net.run(20000);
    received.extend_from_slice(&net.recv_all(Host::B, server));
    assert_eq!(received, payload);
    let rejected = net.a.stats().rx_malformed + net.b.stats().rx_malformed;
    assert!(rejected > 0, "corrupted datagrams were rejected by checksum");
}

#[test]
fn window_scaling_enables_large_in_flight_window() {
    let cfg = Config { offer_window_scale: true, recv_window_scale: 7, ..Config::default() };
    let mut net = clean();
    net.reconfigure(cfg, cfg);

    let (client, server) = establish(&mut net, PORT);
    let payload = vec![0xABu8; 30_000];
    let mut offered = 0;
    let mut received = Vec::new();
    let mut buf = [0u8; 8192];
    for _ in 0..5000 {
        if offered < payload.len() {
            offered += net.send(Host::A, client, &payload[offered..]);
        }
        if !net.step() && offered >= payload.len() {
            break;
        }
        let got = net.recv(Host::B, server, &mut buf);
        received.extend_from_slice(&buf[..got]);
    }
    net.run(5000);
    received.extend_from_slice(&net.recv_all(Host::B, server));
    assert_eq!(received.len(), payload.len());
    assert_eq!(received, payload);
}

#[test]
fn many_connections_concurrently() {
    let mut net = clean();
    for p in 1000..1008u16 {
        net.listen(Host::B, p);
    }
    let mut clients = Vec::new();
    for p in 1000..1008u16 {
        let ep = net.endpoint(Host::B, p);
        clients.push(net.connect(Host::A, ep));
    }
    net.run(500);
    for &c in &clients {
        assert_eq!(net.state_a(c), Some(TcpState::Established), "all opens established");
    }
    assert_eq!(net.count_events(|c| matches!(c.event,
        AppEvent::Connected { .. }) && c.host == Host::B), 8);
}
