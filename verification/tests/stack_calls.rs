//! Calls on a stack: what is refused and why, handles, entropy, replay, and the
//! two stacks of a small loop-back network on either address family.
use tcp_sans_io::config::{Config, MAX_LISTENERS};
use tcp_sans_io::tcp::State;
use tcp_sans_io::time::Instant;
use tcp_sans_io::wire::tcp::{TcpEmit, TcpFlags, TcpOptionsEmit};
use tcp_sans_io::wire::{icmp, ipv4, ipv6, proto, tcp};
use tcp_sans_io::{
    Action, AppEvent, CloseReason, Error, Event, IpAddr, SocketAddr, SocketId, Stack, StackStats,
    TimerKey, TimerKind,
};

type Small = Stack<2, 2048, 2048>;

const US: IpAddr = IpAddr::V4([10, 0, 0, 1]);
const THEM: IpAddr = IpAddr::V4([10, 0, 0, 2]);

fn at(port: u16) -> SocketAddr {
    SocketAddr::new(THEM, port)
}

fn fresh(addr: IpAddr) -> Box<Small> {
    Box::new(Stack::new(Config::with_addr(addr)))
}

fn seeded(addr: IpAddr, seed: u8) -> Box<Small> {
    let mut s = fresh(addr);
    s.on_entropy([seed; 16]);
    s
}

/// Everything a stack hands out until it is quiet: datagrams and the rest.
fn drain(s: &mut Small, now: Instant) -> (Vec<Vec<u8>>, Vec<Action>) {
    let mut tx = [0u8; 1500];
    let (mut frames, mut rest) = (Vec::new(), Vec::new());
    while let Some(a) = s.poll_action(now, &mut tx) {
        match a {
            Action::Transmit { len } => frames.push(tx[..len].to_vec()),
            other => rest.push(other),
        }
    }
    (frames, rest)
}

#[test]
fn calls_without_entropy_are_refused() {
    let mut s = fresh(US);
    let now = Instant::zero();
    assert_eq!(s.connect(now, at(80)), Err(Error::NeedEntropy));
    let (_, rest) = drain(&mut s, now);
    assert!(rest.contains(&Action::RequestEntropy));
    s.handle(now, Event::EntropyProvided([1; 16]));
    assert!(s.connect(now, at(80)).is_ok());
}

#[test]
fn entropy_counts_once() {
    let now = Instant::from_secs(3);
    let mut once = seeded(US, 7);
    let mut twice = seeded(US, 7);
    twice.on_entropy([8; 16]);
    let a = once.connect(now, at(80)).unwrap();
    let b = twice.connect(now, at(80)).unwrap();
    assert_eq!(once.snd_state_of(a), twice.snd_state_of(b));
    assert_eq!(once.local_port_of(a), twice.local_port_of(b));
}

#[test]
fn refused_calls() {
    let now = Instant::zero();
    let mut s = seeded(US, 1);
    // No address of that family.
    let v6 = SocketAddr::new(IpAddr::v6([0xfc00, 0, 0, 0, 0, 0, 0, 2]), 80);
    assert_eq!(s.connect(now, v6), Err(Error::Unaddressable));
    // The tuple is taken.
    let local = SocketAddr::new(US, 5000);
    assert!(s.connect_from(now, local, at(80)).is_ok());
    assert_eq!(s.connect_from(now, local, at(80)), Err(Error::AddrInUse));
    assert!(s.connect_from(now, local, at(81)).is_ok());
    assert_eq!(s.connect_from(now, local, at(82)), Err(Error::NoSlot));
    // Listening twice, and on more ports than fit.
    assert_eq!(s.listen(1), Ok(()));
    assert_eq!(s.listen(1), Err(Error::AddrInUse));
    for p in 2..=MAX_LISTENERS as u16 {
        assert_eq!(s.listen(p), Ok(()));
    }
    assert_eq!(s.listen(99), Err(Error::BufferFull));
    s.unlisten(1);
    assert_eq!(s.listen(99), Ok(()));
}

#[test]
fn stale_handle_is_refused_by_every_call() {
    let now = Instant::zero();
    let mut s = seeded(US, 1);
    let old = s.connect(now, at(80)).unwrap();
    s.abort(now, old).unwrap();
    drain(&mut s, now);
    // The slot is used again, under another handle.
    let new = s.connect(now, at(80)).unwrap();
    assert_eq!(new.index, old.index);
    assert_ne!(new, old);
    let mut buf = [0u8; 4];
    assert_eq!(s.send(old, b"x"), Err(Error::NotFound));
    assert_eq!(s.recv(old, &mut buf), Err(Error::NotFound));
    assert_eq!(s.close(now, old), Err(Error::NotFound));
    assert_eq!(s.abort(now, old), Err(Error::NotFound));
    assert_eq!(s.state_of(old), None);
    assert_eq!(s.local_port_of(old), None);
    assert_eq!(s.snd_state_of(old), None);
    assert_eq!(s.rcv_nxt_of(old), None);
    assert_eq!(s.timer_deadlines_of(old), None);
    // A timer of the old connection does not touch the new one.
    drain(&mut s, now);
    let before = s.timer_deadlines_of(new);
    s.on_timer(
        Instant::from_secs(100),
        TimerKey::Conn { sock: old, kind: TimerKind::Rexmit },
    );
    assert_eq!(s.timer_deadlines_of(new), before);
    assert_eq!(s.state_of(new), Some(State::SynSent));
}

#[test]
fn handle_that_never_was_is_refused() {
    let mut s = seeded(US, 1);
    let never = SocketId { index: 200, generation: 0 };
    assert_eq!(s.send(never, b"x"), Err(Error::NotFound));
    s.on_timer(Instant::zero(), TimerKey::Conn { sock: never, kind: TimerKind::Wait });
    s.on_timer(Instant::zero(), TimerKey::Reasm { slot: 200, generation: 0 });
    assert_eq!(s.stats(), StackStats::default());
}

fn inject(s: &mut Small, now: Instant, src: IpAddr, e: &TcpEmit, text: &[u8]) {
    let mut buf = [0u8; 1500];
    let dst = US;
    let len = e.emit(&src, &dst, (text, &[]), &mut buf[ipv4::HEADER_LEN..]);
    let (IpAddr::V4(a), IpAddr::V4(b)) = (src, dst) else { unreachable!() };
    ipv4::Ipv4Emit::datagram(a, b, proto::TCP, 64, 9, false).emit(len, &mut buf);
    s.on_datagram(now, &buf[..ipv4::HEADER_LEN + len]);
}

fn syn_to(port: u16) -> TcpEmit {
    TcpEmit {
        src_port: 40_000,
        dst_port: port,
        seq: 500,
        ack: 0,
        flags: TcpFlags(TcpFlags::SYN),
        window: 1000,
        options: TcpOptionsEmit::default(),
    }
}

#[test]
fn closed_port_is_answered_with_a_reset() {
    let now = Instant::zero();
    let mut s = seeded(US, 1);
    drain(&mut s, now);
    inject(&mut s, now, THEM, &syn_to(81), b"");
    let (frames, _) = drain(&mut s, now);
    assert_eq!(frames.len(), 1);
    let (_, seg) = ipv4::parse(&frames[0]).unwrap();
    let (h, _, _) = tcp::parse(seg, &US, &THEM).unwrap();
    assert!(h.flags.rst() && h.flags.ack());
    assert_eq!((h.seq, h.ack), (0, 501));
    assert_eq!(s.stats().rst_tx, 1);
    // A reset is never answered.
    let mut rst = syn_to(81);
    rst.flags = TcpFlags(TcpFlags::RST);
    inject(&mut s, now, THEM, &rst, b"");
    assert!(drain(&mut s, now).0.is_empty());
    // An ACK is answered at its acknowledgement number.
    let mut ack = syn_to(81);
    ack.flags = TcpFlags(TcpFlags::ACK);
    ack.ack = 777;
    inject(&mut s, now, THEM, &ack, b"");
    let (frames, _) = drain(&mut s, now);
    let (_, seg) = ipv4::parse(&frames[0]).unwrap();
    let (h, _, _) = tcp::parse(seg, &US, &THEM).unwrap();
    assert!(h.flags.rst() && !h.flags.ack());
    assert_eq!(h.seq, 777);
}

#[test]
fn martian_sources_get_no_reply() {
    let now = Instant::zero();
    let mut s = seeded(US, 1);
    s.listen(80).unwrap();
    drain(&mut s, now);
    for src in [IpAddr::v4(224, 0, 0, 1), IpAddr::v4(127, 0, 0, 1), US] {
        inject(&mut s, now, src, &syn_to(80), b"");
        inject(&mut s, now, src, &syn_to(81), b"");
        assert!(drain(&mut s, now).0.is_empty());
    }
    assert_eq!(s.stats().rx_martian_src, 6);
    assert_eq!((s.stats().rst_tx, s.stats().segs_rx), (0, 0));
}

#[test]
fn malformed_and_foreign_datagrams_are_counted() {
    let now = Instant::zero();
    let mut s = seeded(US, 1);
    s.handle(now, Event::DatagramReceived(&[]));
    s.on_datagram(now, &[0x75; 40]);
    assert_eq!(s.stats().rx_malformed, 2);
    let mut h = [0u8; 20];
    ipv4::Ipv4Emit::datagram([10, 0, 0, 2], [10, 0, 0, 9], proto::TCP, 64, 1, true)
        .emit(0, &mut h);
    s.on_datagram(now, &h);
    assert_eq!((s.stats().rx_datagrams, s.stats().rx_not_local), (3, 1));
    assert!(drain(&mut s, now).0.is_empty());
}

/// Two stacks joined by a perfect wire, run until both are quiet.
fn run(a: &mut Small, b: &mut Small, now: Instant, log: &mut Vec<Vec<u8>>) -> Vec<Action> {
    let mut actions = Vec::new();
    loop {
        let (fa, ra) = drain(a, now);
        let (fb, rb) = drain(b, now);
        actions.extend(ra);
        actions.extend(rb);
        if fa.is_empty() && fb.is_empty() {
            return actions;
        }
        for f in fa {
            b.on_datagram(now, &f);
            log.push(f);
        }
        for f in fb {
            a.on_datagram(now, &f);
            log.push(f);
        }
    }
}

fn accepted(actions: &[Action]) -> Option<SocketId> {
    actions.iter().find_map(|a| match a {
        Action::App(AppEvent::Connected { sock, via_listener: Some(_) }) => Some(*sock),
        _ => None,
    })
}

/// A client writes, the server reads; returns what was read and the wire log.
fn transfer(addr_a: IpAddr, addr_b: IpAddr, data: &[u8]) -> (Vec<u8>, Vec<Vec<u8>>) {
    let mut now = Instant::from_secs(1);
    let mut a = seeded(addr_a, 0x11);
    let mut b = seeded(addr_b, 0x22);
    let mut log = Vec::new();
    b.listen(80).unwrap();
    let sock = a.connect(now, SocketAddr::new(addr_b, 80)).unwrap();
    let peer = accepted(&run(&mut a, &mut b, now, &mut log)).unwrap();
    let (mut sent, mut got, mut buf) = (0usize, Vec::new(), [0u8; 700]);
    while got.len() < data.len() {
        if sent < data.len() {
            sent += a.send(sock, &data[sent..]).unwrap();
        }
        run(&mut a, &mut b, now, &mut log);
        let n = b.recv(peer, &mut buf).unwrap();
        got.extend_from_slice(&buf[..n]);
        // What was read is always a prefix of what was written.
        assert_eq!(got, data[..got.len()]);
        now = now + tcp_sans_io::time::Duration::from_millis(300);
        // Delayed acknowledgements come due.
        b.on_timer(now, TimerKey::Conn { sock: peer, kind: TimerKind::DelAck });
    }
    a.close(now, sock).unwrap();
    run(&mut a, &mut b, now, &mut log);
    b.close(now, peer).unwrap();
    let end = run(&mut a, &mut b, now, &mut log);
    assert!(end.contains(&Action::App(AppEvent::Closed { sock: peer, reason: CloseReason::Normal })));
    assert_eq!(a.state_of(sock), Some(State::TimeWait));
    (got, log)
}

#[test]
fn each_side_reads_what_the_other_wrote_v4() {
    let data: Vec<u8> = (0..9000u32).map(|i| (i * 31 >> 3) as u8).collect();
    let (got, log) = transfer(US, THEM, &data);
    assert_eq!(got, data);
    // Everything on the wire parses.
    for f in &log {
        let (h, seg) = ipv4::parse(f).unwrap();
        tcp::parse(seg, &IpAddr::V4(h.src), &IpAddr::V4(h.dst)).unwrap();
    }
}

#[test]
fn each_side_reads_what_the_other_wrote_v6() {
    let a = IpAddr::v6([0xfc00, 0, 0, 0, 0, 0, 0, 1]);
    let b = IpAddr::v6([0xfc00, 0, 0, 0, 0, 0, 0, 2]);
    let data: Vec<u8> = (0..9000u32).map(|i| (i * 37 >> 2) as u8).collect();
    let (got, log) = transfer(a, b, &data);
    assert_eq!(got, data);
    for f in &log {
        let (h, seg) = ipv6::parse(f).unwrap();
        tcp::parse(seg, &IpAddr::V6(h.src), &IpAddr::V6(h.dst)).unwrap();
    }
}

#[test]
fn replay_gives_the_same_bytes() {
    let data = [0x5Au8; 4000];
    assert_eq!(transfer(US, THEM, &data), transfer(US, THEM, &data));
}

#[test]
fn quiet_stack_has_told_the_wanted_timers() {
    let now = Instant::from_secs(2);
    let mut s = seeded(US, 5);
    let sock = s.connect(now, at(80)).unwrap();
    let (_, rest) = drain(&mut s, now);
    let told = rest.iter().find_map(|a| match a {
        Action::StartTimer { key: TimerKey::Conn { sock: k, kind: TimerKind::Rexmit }, after }
            if *k == sock =>
        {
            Some(now + *after)
        }
        _ => None,
    });
    let wanted = s.timer_deadlines_of(sock).unwrap();
    assert_eq!(told, wanted[TimerKind::Rexmit.index()]);
    assert_eq!(wanted[TimerKind::Persist.index()], None);
    assert_eq!(told, Some(Instant::from_secs(3)));
    // The ephemeral port comes from the dynamic range.
    assert!(s.local_port_of(sock).unwrap() >= 49152);
}

#[test]
fn full_table_answers_no_further_syn() {
    // Two slots: two half-open connections, and no more.
    let now = Instant::zero();
    let mut s = seeded(US, 1);
    s.listen(80).unwrap();
    drain(&mut s, now);
    for port in [1000, 1001, 1002] {
        let mut e = syn_to(80);
        e.src_port = port;
        inject(&mut s, now, THEM, &e, b"");
    }
    let (frames, _) = drain(&mut s, now);
    let answered = frames
        .iter()
        .filter(|f| {
            let (_, seg) = ipv4::parse(f).unwrap();
            tcp::parse(seg, &US, &THEM).unwrap().0.flags.syn()
        })
        .count();
    assert_eq!(answered, 2);
}

#[test]
fn transmitted_datagrams_can_be_read() {
    let data = [0xA5u8; 3000];
    let (_, frames) = transfer(US, THEM, &data);
    assert!(frames.len() > 4);
    for f in &frames {
        let (h, seg) = ipv4::parse(f).unwrap();
        let (src, dst) = (IpAddr::V4(h.src), IpAddr::V4(h.dst));
        assert!(src == US || src == THEM);
        assert!(!h.more_frags && h.frag_offset == 0);
        assert_eq!(h.total_len as usize, f.len());
        assert!(tcp::parse(seg, &src, &dst).is_ok());
    }
}

#[test]
fn handles_stay_stale_over_many_reuses() {
    let now = Instant::zero();
    let mut s = seeded(US, 1);
    let mut old = Vec::new();
    for _ in 0..40 {
        let sock = s.connect(now, at(80)).unwrap();
        for o in &old {
            assert_ne!(*o, sock);
            assert_eq!(s.state_of(*o), None);
            assert_eq!(s.send(*o, b"x"), Err(Error::NotFound));
        }
        // The live one stays live until its connection is gone.
        drain(&mut s, now);
        assert_eq!(s.state_of(sock), Some(State::SynSent));
        s.abort(now, sock).unwrap();
        drain(&mut s, now);
        assert_eq!(s.state_of(sock), None);
        old.push(sock);
    }
}

#[test]
fn echo_replies_can_be_read() {
    let now = Instant::zero();
    let mut s = seeded(US, 1);
    drain(&mut s, now);
    let (IpAddr::V4(us), IpAddr::V4(them)) = (US, THEM) else { unreachable!() };
    let mut buf = [0u8; 64];
    let rest = [0, 1, 0, 9];
    let len = icmp::emit_v4(icmp::v4::ECHO_REQUEST, 0, rest, b"ping", &mut buf[20..]);
    ipv4::Ipv4Emit::datagram(them, us, proto::ICMP, 64, 1, false).emit(len, &mut buf);
    s.on_datagram(now, &buf[..20 + len]);
    let sent = s.stats().tx_datagrams;
    let (frames, _) = drain(&mut s, now);
    assert_eq!(frames.len(), 1);
    assert_eq!(s.stats().tx_datagrams, sent + 1);
    let (h, msg) = ipv4::parse(&frames[0]).unwrap();
    assert_eq!(h.total_len as usize, frames[0].len());
    assert_eq!((h.src, h.dst, h.proto), (us, them, proto::ICMP));
    let (m, body) = icmp::parse_v4(msg).unwrap();
    assert_eq!((m.kind, m.code, m.rest), (icmp::v4::ECHO_REPLY, 0, rest));
    assert_eq!(body, b"ping");
}
