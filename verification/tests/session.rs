//! Sessions, what an application decides about one connection, and the timer
//! table of a runtime.
use tcp_sans_io::config::Config;
use tcp_sans_io::session::{
    first_mismatch, header_end, is_http, judge, pattern, ClientSession, CloseWhen, EchoServer,
    Step, Verdict,
};
use tcp_sans_io::runtime::TimerTable;
use tcp_sans_io::time::{Duration, Instant};
use tcp_sans_io::{
    Action, AppEvent, CloseReason, IpAddr, SocketAddr, SocketId, Stack, TimerKey, TimerKind,
};

/// Two distinct handles.
fn handles() -> (SocketId, SocketId) {
    let mut s: Stack<2, 256, 256> = Stack::new(Config::with_addr(IpAddr::v4(10, 0, 0, 1)));
    s.on_entropy([3; 16]);
    let at = |port| SocketAddr::new(IpAddr::v4(10, 0, 0, 2), port);
    let a = s.connect(Instant::zero(), at(80)).unwrap();
    let b = s.connect(Instant::zero(), at(81)).unwrap();
    (a, b)
}

#[test]
fn echo_server_sends_back_what_it_reads() {
    let (a, b) = handles();
    let mut s = EchoServer::new();
    // An open of our own is no accepted connection.
    s.on_event(AppEvent::Connected { sock: b, via_listener: None });
    s.begin();
    assert_eq!(s.next(), Step::Rest);
    s.on_event(AppEvent::Connected { sock: a, via_listener: Some(9000) });
    assert_eq!(s.next(), Step::Read(a));
    s.on_read(b"abc");
    assert_eq!(s.next(), Step::Read(a));
    s.on_read(b"defg");
    s.on_read(b"");
    assert_eq!(s.next(), Step::Send(a, 0));
    assert_eq!(s.pending, b"abcdefg");
    s.on_accepted(5);
    assert_eq!(s.pending, b"fg");
    assert_eq!(s.next(), Step::Send(a, 0));
    // Nothing more is accepted: the rest waits for the next round.
    s.on_accepted(0);
    assert_eq!(s.next(), Step::Rest);
    s.on_event(AppEvent::PeerFinReceived { sock: b });
    assert!(!s.peer_fin);
    s.on_event(AppEvent::PeerFinReceived { sock: a });
    assert_eq!(s.next(), Step::Rest);
    s.begin();
    s.on_read(b"");
    s.on_accepted(2);
    assert_eq!(s.next(), Step::Close(a));
    s.on_closing();
    assert_eq!(s.next(), Step::Rest);
}

#[test]
fn client_closes_once_everything_is_sent() {
    let (a, b) = handles();
    let mut s = ClientSession::new(a, 10, CloseWhen::AllSent);
    s.on_event(AppEvent::Connected { sock: b, via_listener: None });
    s.begin();
    assert_eq!(s.next(), Step::Rest);
    s.on_event(AppEvent::Connected { sock: a, via_listener: None });
    assert_eq!(s.next(), Step::Send(a, 0));
    s.on_accepted(4);
    assert_eq!(s.next(), Step::Read(a));
    s.on_read(0);
    assert_eq!(s.next(), Step::Rest);
    s.begin();
    assert_eq!(s.next(), Step::Send(a, 4));
    s.on_accepted(6);
    s.on_read(7);
    assert_eq!(s.next(), Step::Read(a));
    s.on_read(0);
    assert!(!s.done());
    s.begin();
    assert_eq!(s.next(), Step::Close(a));
    s.on_closing();
    // Reading goes on after the close, which comes once.
    assert_eq!(s.next(), Step::Read(a));
    s.on_read(3);
    assert!(s.done());
    s.on_read(0);
    s.begin();
    assert_eq!(s.next(), Step::Read(a));
}

#[test]
fn client_closes_after_the_peer() {
    let (a, b) = handles();
    let mut s = ClientSession::new(a, 1, CloseWhen::PeerFinished);
    s.on_event(AppEvent::Connected { sock: a, via_listener: None });
    s.begin();
    s.on_accepted(1);
    s.on_read(0);
    assert_eq!(s.next(), Step::Rest);
    s.on_event(AppEvent::PeerFinReceived { sock: b });
    assert_eq!(s.next(), Step::Rest);
    s.on_event(AppEvent::PeerFinReceived { sock: a });
    assert_eq!(s.next(), Step::Close(a));
    s.on_closing();
    assert_eq!(s.next(), Step::Rest);
    s.on_event(AppEvent::Closed { sock: b, reason: CloseReason::Reset });
    assert!(!s.done());
    s.on_event(AppEvent::Closed { sock: a, reason: CloseReason::Normal });
    assert!(s.done());
    assert_eq!(s.ended, Some(CloseReason::Normal));
}

#[test]
fn timer_table_keeps_one_deadline_per_key() {
    let (a, b) = handles();
    let key = |sock, kind| TimerKey::Conn { sock, kind };
    let now = Instant::from_secs(1);
    let mut t = TimerTable::new();
    t.on_action(
        now,
        Action::StartTimer { key: key(a, TimerKind::Rexmit), after: Duration::from_secs(2) },
    );
    t.start(key(b, TimerKind::Rexmit), Instant::from_secs(5));
    t.start(key(a, TimerKind::Wait), Instant::from_secs(4));
    // Starting again reschedules.
    t.start(key(a, TimerKind::Rexmit), Instant::from_secs(6));
    assert_eq!(t.get(key(a, TimerKind::Rexmit)), Some(Instant::from_secs(6)));
    t.on_action(now, Action::CancelTimer { key: key(b, TimerKind::Rexmit) });
    t.on_action(now, Action::RequestEntropy);
    assert_eq!(t.get(key(b, TimerKind::Rexmit)), None);
    assert_eq!(t.take_due(Instant::from_secs(3)), None);
    assert_eq!(t.take_due(Instant::from_secs(4)), Some(key(a, TimerKind::Wait)));
    assert_eq!(t.take_due(Instant::from_secs(4)), None);
    assert_eq!(t.take_due(Instant::from_secs(9)), Some(key(a, TimerKind::Rexmit)));
    assert_eq!(t.take_due(Instant::from_secs(9)), None);
}

#[test]
fn pattern_bytes() {
    let p = pattern(4);
    // 2654435761 / 8192 = 324027 = 1265 * 256 + 187, and so on.
    assert_eq!(p, vec![0, 187, 119, 51]);
    let long = pattern(131_072);
    assert_eq!(long.len(), 131_072);
    for i in [1usize, 1000, 99_999, 131_071] {
        let want = ((i as u64 * 2_654_435_761) >> 13) as u8;
        assert_eq!(long[i], want);
    }
    assert!(pattern(0).is_empty());
}

#[test]
fn mismatches_and_verdicts() {
    assert_eq!(first_mismatch(b"abcd", b"abxd"), Some(2));
    assert_eq!(first_mismatch(b"abcd", b"ab"), None);
    assert_eq!(judge(b"abcd", b"abcd"), Verdict::Intact);
    assert_eq!(judge(b"abc", b"abcd"), Verdict::WrongLength);
    assert_eq!(judge(b"abxd", b"abcd"), Verdict::WrongBytes);
    assert_eq!(judge(b"", b""), Verdict::Intact);
}

#[test]
fn http_responses() {
    assert_eq!(header_end(b"HTTP/1.1 200 OK\r\nA: b\r\n\r\nbody\r\n\r\n"), Some(21));
    assert_eq!(header_end(b"HTTP/1.1 200 OK\r\n\r"), None);
    assert_eq!(header_end(b"\r\n\r\n"), Some(0));
    assert_eq!(header_end(b""), None);
    assert!(is_http(b"HTTP/1.1 200 OK"));
    assert!(is_http(b"HTTP/1.0"));
    assert!(!is_http(b"HTTP/2.0"));
    assert!(!is_http(b"HTTP/1."));
    assert!(!is_http(b"http/1.1 200"));
}
