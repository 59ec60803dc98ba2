//! Scripted-segment tests: a single stack is driven by a script that plays the
//! remote peer and the clock, injecting byte-exact segments and asserting
//! byte-exact responses (flags, sequence and acknowledgment numbers, window,
//! and options).
use std::collections::HashMap;
use tcp_sans_io::config::Config;
use tcp_sans_io::tcp::State;
use tcp_sans_io::time::{Duration, Instant};
use tcp_sans_io::wire::tcp::{parse, TcpEmit, TcpFlags, TcpOptionsEmit};
use tcp_sans_io::wire::{ipv4, proto};
use tcp_sans_io::{Action, AppEvent, IpAddr, SocketAddr, SocketId, Stack, TimerKey};

const STACK_IP: IpAddr = IpAddr::V4([10, 0, 0, 2]);
const PEER_IP: IpAddr = IpAddr::V4([10, 0, 0, 1]);
const STACK_PORT: u16 = 80;
const PEER_PORT: u16 = 40000;

/// A parsed segment the stack emitted.
#[derive(Debug, Clone)]
struct Seg {
    src_port: u16,
    flags: TcpFlags,
    seq: u32,
    ack: u32,
    window: u16,
    payload: Vec<u8>,
    mss: Option<u16>,
    wscale: Option<u8>,
    sack_permitted: bool,
    sack_blocks: Vec<(u32, u32)>,
}

/// Fields an injected segment carries (script -> stack).
struct Inject {
    flags: TcpFlags,
    seq: u32,
    ack: u32,
    window: u16,
    payload: Vec<u8>,
    mss: Option<u16>,
    wscale: Option<u8>,
    sack_permitted: bool,
}

impl Inject {
    fn new(flags: TcpFlags, seq: u32, ack: u32) -> Self {
        Inject {
            flags,
            seq,
            ack,
            window: 65535,
            payload: Vec::new(),
            mss: None,
            wscale: None,
            sack_permitted: false,
        }
    }
    fn win(mut self, w: u16) -> Self {
        self.window = w;
        self
    }
    fn data(mut self, d: &[u8]) -> Self {
        self.payload = d.to_vec();
        self
    }
    fn syn_opts(mut self, mss: u16, wscale: Option<u8>, sack: bool) -> Self {
        self.mss = Some(mss);
        self.wscale = wscale;
        self.sack_permitted = sack;
        self
    }
}

/// The scripted-segment driver around one stack.
struct Pd {
    stack: Stack<2, 16384, 16384>,
    now: Instant,
    timers: HashMap<TimerKey, Instant>,
    emitted: std::collections::VecDeque<Seg>,
    events: Vec<AppEvent>,
    /// The stack's initial send sequence, learned from its first SYN/SYN-ACK.
    iss: Option<u32>,
    /// The stack's local port for the connection under test (the listen port
    /// for a passive open; the learned ephemeral port for an active open).
    stack_port: u16,
}

impl Pd {
    fn new() -> Self {
        let mut cfg = Config::with_addr(STACK_IP);
        cfg.nagle = true;
        let mut stack: Stack<2, 16384, 16384> = Stack::new(cfg);
        stack.on_entropy([0x5A; 16]);
        let mut pd = Pd {
            stack,
            now: Instant::from_millis(1000),
            timers: HashMap::new(),
            emitted: Default::default(),
            events: Vec::new(),
            iss: None,
            stack_port: STACK_PORT,
        };
        pd.drain();
        pd
    }

    fn now(&self) -> Instant {
        self.now
    }

    /// Drain all pending actions, capturing emitted segments and timers.
    fn drain(&mut self) {
        let mut tx = [0u8; 1500];
        while let Some(a) = self.stack.poll_action(self.now, &mut tx) {
            match a {
                Action::Nothing => {}
                Action::Transmit { len } => {
                    if let Some(seg) = parse_emitted(&tx[..len]) {
                        if self.iss.is_none() && seg.flags.contains(TcpFlags(TcpFlags::SYN)) {
                            self.iss = Some(seg.seq);
                        }
                        self.emitted.push_back(seg);
                    }
                }
                Action::StartTimer { key, after } => {
                    self.timers.insert(key, self.now + after);
                }
                Action::CancelTimer { key } => {
                    self.timers.remove(&key);
                }
                Action::RequestEntropy => self.stack.on_entropy([0x5A; 16]),
                Action::App(ev) => self.events.push(ev),
            }
        }
    }

    /// Advance the clock by `ms`, firing any timers that come due (earliest
    /// first), draining after each.
    fn advance(&mut self, ms: u64) {
        let target = self.now + Duration::from_millis(ms);
        loop {
            let next = self
                .timers
                .iter()
                .filter(|&(_, &t)| t <= target)
                .min_by_key(|&(_, &t)| t)
                .map(|(&k, &t)| (k, t));
            let Some((key, at)) = next else { break };
            self.timers.remove(&key);
            self.now = at;
            self.stack.on_timer(self.now, key);
            self.drain();
        }
        self.now = target;
    }

    /// Inject a segment from the peer to the stack.
    fn inject(&mut self, seg: Inject) {
        let mut buf = [0u8; 1500];
        let opts = TcpOptionsEmit {
            mss: seg.mss,
            window_scale: seg.wscale,
            sack_permitted: seg.sack_permitted,
            ..Default::default()
        };
        let emit = TcpEmit {
            src_port: PEER_PORT,
            dst_port: self.stack_port,
            seq: seg.seq,
            ack: seg.ack,
            flags: seg.flags,
            window: seg.window,
            options: opts,
        };
        let seg_len = emit.emit(&PEER_IP, &STACK_IP, (&seg.payload, &[]), &mut buf[ipv4::HEADER_LEN..]);
        let IpAddr::V4(s) = PEER_IP else { unreachable!() };
        let IpAddr::V4(d) = STACK_IP else { unreachable!() };
        ipv4::Ipv4Emit::datagram(s, d, proto::TCP, 64, 1, false).emit(seg_len, &mut buf);
        let total = ipv4::HEADER_LEN + seg_len;
        self.stack.on_datagram(self.now, &buf[..total]);
        self.drain();
    }

    /// Pop the next emitted segment, or panic with context.
    fn next_seg(&mut self, ctx: &str) -> Seg {
        self.emitted.pop_front().unwrap_or_else(|| panic!("expected a segment ({ctx}), got none"))
    }

    /// Assert no segment is pending.
    fn expect_silence(&mut self) {
        assert!(self.emitted.is_empty(), "expected silence, got {:?}", self.emitted);
    }

    fn iss(&self) -> u32 {
        self.iss.expect("stack ISS not yet learned")
    }

    fn connected_sock(&self) -> Option<SocketId> {
        self.events.iter().find_map(|e| match e {
            AppEvent::Connected { sock, .. } => Some(*sock),
            _ => None,
        })
    }
}

fn parse_emitted(datagram: &[u8]) -> Option<Seg> {
    let (_h, l4) = ipv4::parse(datagram).ok()?;
    let (th, opts, payload) = parse(l4, &STACK_IP, &PEER_IP).ok()?;
    Some(Seg {
        src_port: th.src_port,
        flags: th.flags,
        seq: th.seq,
        ack: th.ack,
        window: th.window,
        payload: payload.to_vec(),
        mss: opts.mss,
        wscale: opts.window_scale,
        sack_permitted: opts.sack_permitted,
        sack_blocks: opts.sack_blocks.as_slice().to_vec(),
    })
}

/// Flags compared ignoring PSH/URG (discretionary / unused).
fn core_flags(f: TcpFlags) -> u8 {
    f.0 & (TcpFlags::SYN | TcpFlags::ACK | TcpFlags::FIN | TcpFlags::RST)
}

fn assert_flags(seg: &Seg, expected: TcpFlags, ctx: &str) {
    assert_eq!(core_flags(seg.flags), core_flags(expected), "flags mismatch ({ctx}): {seg:?}");
}

/// Passive open: SYN -> SYN-ACK (exact ack, options) -> ACK -> ESTABLISHED.
#[test]
fn passive_open_handshake_exact() {
    let mut pd = Pd::new();
    pd.stack.listen(STACK_PORT).unwrap();

    pd.inject(Inject::new(TcpFlags(TcpFlags::SYN), 1000, 0).win(65535).syn_opts(1460, Some(7), true));

    let synack = pd.next_seg("SYN-ACK");
    assert_flags(&synack, TcpFlags(TcpFlags::SYN).union(TcpFlags(TcpFlags::ACK)), "syn-ack");
    assert_eq!(synack.ack, 1001, "must ack the peer's SYN (seq+1)");
    assert!(synack.mss.is_some(), "SYN-ACK carries MSS");
    assert_eq!(synack.wscale, Some(0), "we offered window scale (recv shift 0)");
    assert!(synack.sack_permitted, "we accept SACK since peer offered it");
    assert_eq!(synack.window, 16384, "SYN-ACK advertises the unscaled recv window");
    let iss = pd.iss();

    pd.inject(Inject::new(TcpFlags(TcpFlags::ACK), 1001, iss.wrapping_add(1)).win(65535));
    pd.expect_silence();
    assert_eq!(pd.stack.state_of(pd.connected_sock().unwrap()), Some(State::Established));
}

/// Active open: connect -> SYN (with options) -> SYN-ACK -> ACK.
#[test]
fn active_open_handshake_exact() {
    let mut pd = Pd::new();
    let sock = pd
        .stack
        .connect(pd.now(), SocketAddr::new(PEER_IP, PEER_PORT))
        .unwrap();
    pd.drain();

    let syn = pd.next_seg("SYN");
    assert_flags(&syn, TcpFlags(TcpFlags::SYN), "syn");
    assert!(syn.mss.is_some() && syn.wscale.is_some() && syn.sack_permitted);
    let iss = syn.seq;
    pd.stack_port = syn.src_port;

    pd.inject(
        Inject::new(TcpFlags(TcpFlags::SYN).union(TcpFlags(TcpFlags::ACK)), 5000, iss.wrapping_add(1))
            .win(65535)
            .syn_opts(1460, Some(7), true),
    );

    let ack = pd.next_seg("handshake ACK");
    assert_flags(&ack, TcpFlags(TcpFlags::ACK), "ack");
    assert_eq!(ack.ack, 5001, "acks the peer's SYN");
    assert_eq!(ack.seq, iss.wrapping_add(1));
    assert_eq!(pd.stack.state_of(sock), Some(State::Established));
}

/// Data delivery produces an ACK with the exact cumulative ack number.
#[test]
fn data_segment_is_acked_exactly() {
    let mut pd = establish_passive();
    let iss = pd.iss();

    pd.inject(
        Inject::new(TcpFlags(TcpFlags::ACK).union(TcpFlags(TcpFlags::PSH)), 1001, iss.wrapping_add(1))
            .data(b"0123456789"),
    );
    pd.expect_silence();
    pd.advance(250);
    let ack = pd.next_seg("delayed data ack");
    assert_flags(&ack, TcpFlags(TcpFlags::ACK), "ack");
    assert_eq!(ack.ack, 1011, "cumulative ack covers exactly the 10 bytes");
}

/// An out-of-order segment elicits an immediate duplicate ACK pointing at the
/// gap, plus a SACK block describing the received range (RFC 2018 section 4).
#[test]
fn out_of_order_segment_triggers_sack() {
    let mut pd = establish_passive();
    let iss = pd.iss();

    pd.inject(
        Inject::new(TcpFlags(TcpFlags::ACK), 1011, iss.wrapping_add(1)).data(b"AAAAAAAAAA"),
    );
    let dupack = pd.next_seg("dup ack with SACK");
    assert_flags(&dupack, TcpFlags(TcpFlags::ACK), "dupack");
    assert_eq!(dupack.ack, 1001, "ack still points at the gap");
    assert_eq!(dupack.sack_blocks, vec![(1011, 1021)], "SACK reports the out-of-order range");
}

/// Retransmission: unacked data is resent identically after the RTO, with no
/// ACK from the peer in between.
#[test]
fn rto_retransmits_identically() {
    let mut pd = establish_passive();
    let iss = pd.iss();
    let sock = pd.connected_sock().unwrap();

    pd.stack.send(sock, b"ping").unwrap();
    pd.drain();
    let first = pd.next_seg("first data");
    assert_flags(&first, TcpFlags(TcpFlags::ACK), "data");
    assert_eq!(first.seq, iss.wrapping_add(1));
    assert_eq!(first.payload, b"ping");
    pd.expect_silence();

    pd.advance(1200);
    let rexmit = pd.next_seg("retransmission");
    assert_eq!(rexmit.seq, first.seq, "same sequence number");
    assert_eq!(rexmit.payload, first.payload, "same bytes");
}

/// RFC 5961 section 3.2: an in-window but non-exact RST yields a challenge ACK and
/// does NOT tear the connection down.
#[test]
fn inexact_rst_challenged_not_closed() {
    let mut pd = establish_passive();
    let iss = pd.iss();
    let sock = pd.connected_sock().unwrap();

    pd.inject(Inject::new(TcpFlags(TcpFlags::RST), 1050, 0).win(65535));
    let chal = pd.next_seg("challenge ACK");
    assert_flags(&chal, TcpFlags(TcpFlags::ACK), "challenge");
    assert_eq!(chal.ack, 1001, "challenge ACK names RCV.NXT");
    assert_eq!(chal.seq, iss.wrapping_add(1), "challenge ACK uses SND.NXT");
    assert_eq!(
        pd.stack.state_of(sock),
        Some(State::Established),
        "connection survives the blind RST"
    );
}

/// An exact-sequence RST does tear the connection down (RFC 9293 section 3.10.7.4).
#[test]
fn exact_rst_resets_connection() {
    let mut pd = establish_passive();
    let sock = pd.connected_sock().unwrap();
    pd.inject(Inject::new(TcpFlags(TcpFlags::RST), 1001, 0).win(65535));
    assert_eq!(pd.stack.state_of(sock), None, "exact RST closed the connection");
}

/// FIN handling: peer FIN is acked and advances our state to CLOSE-WAIT.
#[test]
fn peer_fin_acked_exactly() {
    let mut pd = establish_passive();
    let iss = pd.iss();
    let sock = pd.connected_sock().unwrap();

    pd.inject(Inject::new(TcpFlags(TcpFlags::FIN).union(TcpFlags(TcpFlags::ACK)), 1001, iss.wrapping_add(1)));
    let ack = pd.next_seg("fin ack");
    assert_flags(&ack, TcpFlags(TcpFlags::ACK), "ack");
    assert_eq!(ack.ack, 1002, "acks the FIN's sequence (RCV.NXT advanced past it)");
    assert_eq!(pd.stack.state_of(sock), Some(State::CloseWait));
}

fn establish_passive() -> Pd {
    let mut pd = Pd::new();
    pd.stack.listen(STACK_PORT).unwrap();
    pd.inject(Inject::new(TcpFlags(TcpFlags::SYN), 1000, 0).win(65535).syn_opts(1460, Some(7), true));
    let _synack = pd.next_seg("syn-ack");
    let iss = pd.iss();
    pd.inject(Inject::new(TcpFlags(TcpFlags::ACK), 1001, iss.wrapping_add(1)).win(65535));
    pd.emitted.clear();
    pd
}

