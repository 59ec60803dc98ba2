//! One connection, driven directly: segments in, planned segments out.
use tcp_sans_io::config::Config;
use tcp_sans_io::tcp::conn::input::segment_len;
use tcp_sans_io::tcp::conn::output::SegmentPlan;
use tcp_sans_io::tcp::conn::{ConnEvent, ConnParams, Connection, Effects, PeerSyn};
use tcp_sans_io::tcp::seq::SeqNr;
use tcp_sans_io::tcp::State;
use tcp_sans_io::time::{Duration, Instant};
use tcp_sans_io::wire::tcp::{TcpFlags, TcpHeader, TcpOptions};
use tcp_sans_io::{CloseReason, Error, IpAddr, SocketAddr, TimerKind};

type Conn = Connection<4096, 4096>;

const ISS: u32 = 1_000;
const IRS: u32 = 70_000;
const SYN: u8 = TcpFlags::SYN;
const ACK: u8 = TcpFlags::ACK;
const FIN: u8 = TcpFlags::FIN;
const RST: u8 = TcpFlags::RST;

fn t(ms: u64) -> Instant {
    Instant::from_millis(ms)
}

fn ends() -> (SocketAddr, SocketAddr) {
    (
        SocketAddr::new(IpAddr::v4(10, 0, 0, 1), 5000),
        SocketAddr::new(IpAddr::v4(10, 0, 0, 2), 80),
    )
}

fn params() -> ConnParams {
    ConnParams { local_mss: 1000, offer_wscale: Some(0), offer_sack: true, pmtu_mss: 1000 }
}

fn config() -> Config {
    let mut cfg = Config::default();
    cfg.nagle = false;
    cfg
}

fn client_at(iss: u32) -> Conn {
    let (l, r) = ends();
    Connection::client(&config(), params(), l, r, SeqNr(iss))
}

fn header(seq: u32, ack: u32, flags: u8, window: u16) -> TcpHeader {
    TcpHeader {
        src_port: 80,
        dst_port: 5000,
        seq,
        ack,
        flags: TcpFlags(flags),
        window,
        header_len: 20,
    }
}

fn feed(c: &mut Conn, now: Instant, h: TcpHeader, payload: &[u8]) -> Effects {
    let mut fx = Effects::default();
    c.on_segment(now, &h, &TcpOptions::default(), payload, &mut fx);
    assert!(c.check_invariants());
    fx
}

fn syn_options(mss: u16) -> TcpOptions {
    TcpOptions {
        mss: Some(mss),
        window_scale: Some(2),
        sack_permitted: true,
        ..Default::default()
    }
}

/// An established client connection whose initial sequence number is `iss`.
fn established_at(iss: u32, window: u16) -> Conn {
    let mut c = client_at(iss);
    let plan = c.next_segment(t(0)).unwrap();
    assert!(plan.flags.syn());
    assert_eq!(plan.seq, SeqNr(iss));
    let mut fx = Effects::default();
    let h = header(IRS, iss.wrapping_add(1), SYN | ACK, window);
    c.on_segment(t(10), &h, &syn_options(1000), &[], &mut fx);
    assert_eq!(fx.events.as_slice(), &[ConnEvent::Connected]);
    assert_eq!(c.state(), State::Established);
    let ack = c.next_segment(t(10)).unwrap();
    assert_eq!((ack.seq, ack.ack), (SeqNr(iss.wrapping_add(1)), Some(SeqNr(IRS + 1))));
    assert!(c.next_segment(t(10)).is_none());
    c
}

fn established() -> Conn {
    established_at(ISS, 4000)
}

fn plans(c: &mut Conn, now: Instant) -> Vec<SegmentPlan> {
    let mut out = Vec::new();
    while let Some(p) = c.next_segment(now) {
        assert!(c.check_invariants());
        out.push(p);
    }
    out
}

#[test]
fn syn_carries_the_offered_options() {
    let mut c = client_at(ISS);
    let p = c.next_segment(t(0)).unwrap();
    assert_eq!(p.ack, None);
    assert_eq!(p.window, 4096);
    let o = p.syn_opts.unwrap();
    assert_eq!(o.mss, 1000);
    assert_eq!(o.wscale, Some(0));
    assert!(o.sack_permitted);
    assert!(c.next_segment(t(0)).is_none());
    assert_eq!(c.timer_deadline(TimerKind::Rexmit), Some(t(1000)));
}

#[test]
fn handshake_negotiates_options() {
    let c = established();
    // (peer MSS, shift for their window, shift for ours, SACK)
    assert_eq!(c.negotiated(), (1000, 2, 0, true));
    // The window of a SYN is not scaled.
    assert_eq!(c.snd_state(), (ISS + 1, ISS + 1, 4000));
    assert_eq!(c.rcv_nxt(), IRS + 1);
    assert_eq!(c.accepted_on(), None);
}

#[test]
fn passive_open_answers_the_syn() {
    let (l, r) = ends();
    let syn = PeerSyn {
        seq: SeqNr(IRS),
        window: 700,
        mss: Some(500),
        wscale: None,
        sack_permitted: false,
    };
    let mut c: Conn = Connection::server(&config(), params(), l, r, SeqNr(ISS), syn);
    assert_eq!(c.state(), State::SynReceived);
    assert_eq!(c.accepted_on(), Some(5000));
    assert_eq!(c.negotiated(), (500, 0, 0, false));
    let p = c.next_segment(t(0)).unwrap();
    assert!(p.flags.syn());
    assert_eq!((p.seq, p.ack), (SeqNr(ISS), Some(SeqNr(IRS + 1))));
    let o = p.syn_opts.unwrap();
    // What the peer did not offer is not answered.
    assert_eq!((o.wscale, o.sack_permitted), (None, false));
    let fx = feed(&mut c, t(5), header(IRS + 1, ISS + 1, ACK, 700), &[]);
    assert_eq!(fx.events.as_slice(), &[ConnEvent::Connected]);
    assert_eq!(c.state(), State::Established);
}

#[test]
fn unacceptable_ack_in_syn_sent_is_reset() {
    let mut c = client_at(ISS);
    c.next_segment(t(0)).unwrap();
    let fx = feed(&mut c, t(1), header(IRS, ISS + 9, SYN | ACK, 100), &[]);
    let rst = fx.reset_reply.unwrap();
    assert_eq!((rst.seq, rst.ack), (SeqNr(ISS + 9), None));
    assert_eq!(c.state(), State::SynSent);
}

#[test]
fn refused_connection_says_so() {
    let mut c = client_at(ISS);
    c.next_segment(t(0)).unwrap();
    let fx = feed(&mut c, t(1), header(0, ISS + 1, RST | ACK, 0), &[]);
    assert_eq!(fx.events.as_slice(), &[ConnEvent::Closed(CloseReason::Refused)]);
    assert!(c.is_closed());
}

#[test]
fn data_is_cut_to_the_segment_size() {
    let mut c = established();
    assert_eq!(c.send(&[7u8; 2500]), Ok(2500));
    let out = plans(&mut c, t(20));
    let shape: Vec<(u32, u32, u32)> =
        out.iter().map(|p| (p.seq.0, p.payload_off, p.payload_len)).collect();
    assert_eq!(
        shape,
        vec![(ISS + 1, 0, 1000), (ISS + 1001, 1000, 1000), (ISS + 2001, 2000, 500)]
    );
    assert!(out[2].flags.psh());
    assert_eq!(c.tcb.bytes_in_flight(), 2500);
}

#[test]
fn syn_unit_is_not_recounted_after_seq_wrap() {
    // The SYN takes the last number of the space; data starts at zero.
    let mut c = established_at(u32::MAX, 4000);
    assert_eq!(c.snd_state(), (0, 0, 4000));
    c.send(&[1u8; 600]).unwrap();
    let out = plans(&mut c, t(20));
    assert_eq!(out.len(), 1);
    assert_eq!((out[0].seq, out[0].payload_off, out[0].payload_len), (SeqNr(0), 0, 600));
    feed(&mut c, t(30), header(IRS + 1, 600, ACK, 1000), &[]);
    // 1000 << 2 = 4000: the negotiated shift applies from here on.
    assert_eq!(c.snd_state(), (600, 600, 4000));
    assert_eq!(c.timer_deadline(TimerKind::Rexmit), None);
}

#[test]
fn sequence_wrap_inside_the_data() {
    let mut c = established_at(u32::MAX - 300, 4000);
    c.send(&[1u8; 600]).unwrap();
    let out = plans(&mut c, t(20));
    assert_eq!((out[0].seq, out[0].payload_len), (SeqNr(u32::MAX - 299), 600));
    feed(&mut c, t(30), header(IRS + 1, 300, ACK, 1000), &[]);
    assert_eq!(c.snd_state(), (300, 300, 4000));
}

#[test]
fn in_order_text_is_read_back() {
    let mut c = established();
    let fx = feed(&mut c, t(20), header(IRS + 1, ISS + 1, ACK, 4000), b"hello ");
    assert_eq!(fx.events.as_slice(), &[ConnEvent::Readable]);
    feed(&mut c, t(21), header(IRS + 7, ISS + 1, ACK, 4000), b"world");
    let mut buf = [0u8; 32];
    let n = c.recv(&mut buf).unwrap();
    assert_eq!(&buf[..n], b"hello world");
    assert_eq!(c.rcv_nxt(), IRS + 12);
}

#[test]
fn out_of_order_and_overlapping_text_is_read_once() {
    let mut c = established();
    feed(&mut c, t(20), header(IRS + 4, ISS + 1, ACK, 4000), b"defgh");
    assert_eq!(c.rcv_nxt(), IRS + 1);
    // The gap is advertised: [IRS + 4, IRS + 9).
    let dup = c.next_segment(t(20)).unwrap();
    assert_eq!(dup.sack_blocks.as_slice(), &[(IRS + 4, IRS + 9)]);
    feed(&mut c, t(21), header(IRS + 1, ISS + 1, ACK, 4000), b"abcde");
    let mut buf = [0u8; 32];
    let n = c.recv(&mut buf).unwrap();
    assert_eq!(&buf[..n], b"abcdefgh");
    // A full duplicate is acknowledged and changes nothing.
    feed(&mut c, t(22), header(IRS + 1, ISS + 1, ACK, 4000), b"abcde");
    assert_eq!(c.rcv_nxt(), IRS + 9);
    assert_eq!(c.recv(&mut buf), Ok(0));
    assert_eq!(c.next_segment(t(22)).unwrap().ack, Some(SeqNr(IRS + 9)));
}

#[test]
fn second_full_segment_is_acknowledged_at_once() {
    let mut c = established();
    feed(&mut c, t(20), header(IRS + 1, ISS + 1, ACK, 4000), &[1; 1000]);
    assert!(c.next_segment(t(20)).is_none());
    assert_eq!(c.timer_deadline(TimerKind::DelAck), Some(t(220)));
    feed(&mut c, t(30), header(IRS + 1001, ISS + 1, ACK, 4000), &[2; 1000]);
    let p = c.next_segment(t(30)).unwrap();
    assert_eq!(p.ack, Some(SeqNr(IRS + 2001)));
    assert_eq!(p.window, 2096);
    assert_eq!(c.timer_deadline(TimerKind::DelAck), None);
}

#[test]
fn delayed_ack_timer_sends_the_ack() {
    let mut c = established();
    feed(&mut c, t(20), header(IRS + 1, ISS + 1, ACK, 4000), &[1; 10]);
    assert!(c.next_segment(t(20)).is_none());
    let mut fx = Effects::default();
    c.on_timer(t(220), TimerKind::DelAck, &mut fx);
    assert_eq!(c.next_segment(t(220)).unwrap().ack, Some(SeqNr(IRS + 11)));
}

#[test]
fn stale_timer_fire_is_ignored() {
    let mut c = established();
    c.send(&[1u8; 10]).unwrap();
    plans(&mut c, t(20));
    let due = c.timer_deadline(TimerKind::Rexmit).unwrap();
    assert!(due > t(20));
    let before = c.snd_state();
    let mut fx = Effects::default();
    // Too early: nothing is retransmitted and the deadline stands.
    c.on_timer(t(21), TimerKind::Rexmit, &mut fx);
    assert_eq!(c.snd_state(), before);
    assert_eq!(c.timer_deadline(TimerKind::Rexmit), Some(due));
    assert!(c.next_segment(t(21)).is_none());
    // A timer that is not wanted at all does nothing either.
    c.on_timer(t(21), TimerKind::Persist, &mut fx);
    assert!(c.next_segment(t(21)).is_none());
    // On time it does.
    c.on_timer(due, TimerKind::Rexmit, &mut fx);
    assert_eq!(c.next_segment(due).unwrap().seq, SeqNr(ISS + 1));
}

#[test]
fn retransmission_backs_off_and_gives_up() {
    let mut cfg = config();
    cfg.max_data_retries = 2;
    let (l, r) = ends();
    let mut c: Conn = Connection::client(&cfg, params(), l, r, SeqNr(ISS));
    c.next_segment(t(0)).unwrap();
    feed(&mut c, t(10), header(IRS, ISS + 1, SYN | ACK, 4000), &[]);
    plans(&mut c, t(10));
    c.send(&[1u8; 10]).unwrap();
    assert_eq!(plans(&mut c, t(20)).len(), 1);
    let mut now = t(20);
    let mut gaps = Vec::new();
    let mut fx = Effects::default();
    while !c.is_closed() {
        let due = c.timer_deadline(TimerKind::Rexmit).unwrap();
        gaps.push((due - now).as_millis());
        now = due;
        c.on_timer(now, TimerKind::Rexmit, &mut fx);
        for p in plans(&mut c, now) {
            assert_eq!((p.seq, p.payload_len), (SeqNr(ISS + 1), 10));
        }
    }
    assert_eq!(gaps, vec![1000, 2000, 4000]);
    assert_eq!(fx.events.as_slice(), &[ConnEvent::Closed(CloseReason::TimedOut)]);
    assert_eq!(c.send(&[1]), Err(Error::ConnectionGone));
}

#[test]
fn zero_window_is_probed_with_one_byte() {
    let mut c = established_at(ISS, 0);
    c.send(&[9u8; 100]).unwrap();
    c.update_send_timers(t(20));
    assert!(c.next_segment(t(20)).is_none());
    let due = c.timer_deadline(TimerKind::Persist).unwrap();
    let mut fx = Effects::default();
    c.on_timer(due, TimerKind::Persist, &mut fx);
    let p = c.next_segment(due).unwrap();
    assert_eq!((p.seq, p.payload_off, p.payload_len), (SeqNr(ISS + 1), 0, 1));
    assert!(c.check_invariants());
}

#[test]
fn zero_window_probe_ack_is_accepted() {
    let mut c = established_at(ISS, 0);
    c.send(&[9u8; 100]).unwrap();
    c.update_send_timers(t(20));
    let due = c.timer_deadline(TimerKind::Persist).unwrap();
    let mut fx = Effects::default();
    c.on_timer(due, TimerKind::Persist, &mut fx);
    plans(&mut c, due);
    // The peer takes the probe's byte and opens up.
    feed(&mut c, due, header(IRS + 1, ISS + 2, ACK, 25), &[]);
    assert_eq!(c.snd_state().0, ISS + 2);
    let out = plans(&mut c, due);
    assert_eq!((out[0].seq, out[0].payload_len), (SeqNr(ISS + 2), 99));
    assert_eq!(c.timer_deadline(TimerKind::Persist), None);
    assert!(c.timer_deadline(TimerKind::Rexmit).is_some());
}

#[test]
fn three_duplicates_start_fast_retransmit() {
    let mut c = established_at(ISS, 4000);
    c.send(&[3u8; 4000]).unwrap();
    let sent = plans(&mut c, t(20));
    assert!(sent.len() >= 3);
    let una = c.snd_state().0;
    for i in 0..3 {
        feed(&mut c, t(40 + i), header(IRS + 1, ISS + 1, ACK, 1000), &[]);
    }
    let again = c.next_segment(t(43)).unwrap();
    assert_eq!((again.seq, again.payload_len), (SeqNr(una), 1000));
}

#[test]
fn close_after_everything_is_sent() {
    let mut c = established();
    c.send(&[5u8; 20]).unwrap();
    let mut fx = Effects::default();
    assert_eq!(c.close(&mut fx), Ok(()));
    assert_eq!(c.state(), State::FinWait1);
    let out = plans(&mut c, t(20));
    let last = out.last().unwrap();
    assert!(last.flags.fin());
    assert_eq!(last.seq.0 + last.payload_len, ISS + 21);
    // Closing twice, or sending after a close, is refused.
    assert_eq!(c.close(&mut fx), Err(Error::InvalidState));
    assert_eq!(c.send(&[1]), Err(Error::InvalidState));
    feed(&mut c, t(30), header(IRS + 1, ISS + 22, ACK, 1000), &[]);
    assert_eq!(c.state(), State::FinWait2);
    let fx = feed(&mut c, t(40), header(IRS + 1, ISS + 22, ACK | FIN, 1000), &[]);
    assert_eq!(fx.events.as_slice(), &[ConnEvent::PeerFin]);
    assert_eq!(c.state(), State::TimeWait);
    // 2 * MSL = 60 s.
    assert_eq!(c.timer_deadline(TimerKind::Wait), Some(t(60_040)));
    let mut fx = Effects::default();
    c.on_timer(t(60_040), TimerKind::Wait, &mut fx);
    assert!(c.is_closed());
    assert_eq!(fx.events.as_slice(), &[ConnEvent::Closed(CloseReason::Normal)]);
}

#[test]
fn peer_fin_is_consumed_once() {
    let mut c = established();
    let fin = header(IRS + 1, ISS + 1, ACK | FIN, 4000);
    let fx = feed(&mut c, t(20), fin, b"bye");
    assert_eq!(fx.events.as_slice(), &[ConnEvent::Readable, ConnEvent::PeerFin]);
    assert_eq!((c.state(), c.rcv_nxt()), (State::CloseWait, IRS + 5));
    let fx = feed(&mut c, t(21), fin, b"bye");
    assert!(fx.events.is_empty());
    assert_eq!((c.state(), c.rcv_nxt()), (State::CloseWait, IRS + 5));
    let mut buf = [0u8; 8];
    assert_eq!(c.recv(&mut buf), Ok(3));
    let mut fx = Effects::default();
    assert_eq!(c.close(&mut fx), Ok(()));
    assert_eq!(c.state(), State::LastAck);
    plans(&mut c, t(30));
    feed(&mut c, t(40), header(IRS + 5, ISS + 2, ACK, 4000), &[]);
    assert!(c.is_closed());
}

#[test]
fn time_wait_survives_a_reset() {
    let mut c = established();
    let mut fx = Effects::default();
    c.close(&mut fx).unwrap();
    plans(&mut c, t(20));
    feed(&mut c, t(30), header(IRS + 1, ISS + 2, ACK | FIN, 1000), &[]);
    assert_eq!(c.state(), State::TimeWait);
    let due = c.timer_deadline(TimerKind::Wait);
    let fx = feed(&mut c, t(40), header(IRS + 2, ISS + 2, RST | ACK, 0), &[]);
    assert_eq!(c.state(), State::TimeWait);
    assert_eq!(c.timer_deadline(TimerKind::Wait), due);
    assert!(fx.events.is_empty());
}

#[test]
fn inexact_reset_and_syn_are_only_challenged() {
    let mut c = established();
    let fx = feed(&mut c, t(20), header(IRS + 2, ISS + 1, RST, 0), &[]);
    assert!(fx.wants_challenge);
    assert_eq!(c.state(), State::Established);
    let fx = feed(&mut c, t(21), header(IRS + 1, ISS + 1, SYN | ACK, 0), &[]);
    assert!(fx.wants_challenge);
    assert_eq!(c.state(), State::Established);
    c.grant_challenge();
    assert_eq!(c.next_segment(t(22)).unwrap().ack, Some(SeqNr(IRS + 1)));
    // Out of the window: dropped without a word.
    let fx = feed(&mut c, t(23), header(IRS + 9_000, ISS + 1, RST, 0), &[]);
    assert!(!fx.wants_challenge);
    assert!(c.next_segment(t(23)).is_none());
    // Exact: the connection is reset.
    let fx = feed(&mut c, t(24), header(IRS + 1, ISS + 1, RST, 0), &[]);
    assert_eq!(fx.events.as_slice(), &[ConnEvent::Closed(CloseReason::Reset)]);
}

#[test]
fn abort_resets_at_the_next_sequence_number() {
    let mut c = established();
    c.send(&[5u8; 20]).unwrap();
    plans(&mut c, t(20));
    let mut fx = Effects::default();
    let rst = c.abort(&mut fx).unwrap();
    assert_eq!((rst.seq, rst.ack), (SeqNr(ISS + 21), Some(SeqNr(IRS + 1))));
    assert_eq!(fx.events.as_slice(), &[ConnEvent::Closed(CloseReason::Aborted)]);
    // A closed connection wants no timer, plans nothing and ignores segments.
    for kind in [
        TimerKind::Rexmit,
        TimerKind::Persist,
        TimerKind::DelAck,
        TimerKind::Wait,
    ] {
        assert_eq!(c.timer_deadline(kind), None);
    }
    assert!(c.next_segment(t(30)).is_none());
    let fx = feed(&mut c, t(31), header(IRS + 1, ISS + 1, ACK, 100), b"late");
    assert!(fx.events.is_empty() && fx.reset_reply.is_none() && !fx.wants_challenge);
    assert!(c.abort(&mut Effects::default()).is_none());
}

#[test]
fn smaller_path_resends_smaller_segments() {
    let mut c = established();
    c.send(&[5u8; 1000]).unwrap();
    assert_eq!(plans(&mut c, t(20)).len(), 1);
    c.on_pmtu_change(t(30), 600);
    assert_eq!(c.tcb.eff_send_mss(), 600);
    // A larger report is ignored.
    c.on_pmtu_change(t(31), 900);
    assert_eq!(c.tcb.eff_send_mss(), 600);
}

#[test]
fn lowered_path_size_ages_out() {
    let mut c = established();
    c.on_pmtu_change(t(30), 600);
    c.maybe_age_pmtu(t(40));
    c.send(&[5u8; 1000]).unwrap();
    assert_eq!(c.tcb.eff_send_mss(), 600);
    let later = t(30) + Duration::from_secs(600);
    c.maybe_age_pmtu(later);
    assert_eq!(c.tcb.eff_send_mss(), 1000);
}

#[test]
fn icmp_errors_are_advisory_once_established() {
    let mut c = established();
    c.send(&[5u8; 20]).unwrap();
    plans(&mut c, t(20));
    assert!(c.icmp_quote_plausible(SeqNr(ISS + 1)));
    assert!(c.icmp_quote_plausible(SeqNr(ISS + 20)));
    assert!(!c.icmp_quote_plausible(SeqNr(ISS + 21)));
    assert!(!c.icmp_quote_plausible(SeqNr(ISS)));
    let mut fx = Effects::default();
    c.on_icmp_unreachable(&mut fx);
    assert_eq!(c.state(), State::Established);
    let mut young = client_at(ISS);
    young.next_segment(t(0)).unwrap();
    young.on_icmp_unreachable(&mut fx);
    assert!(young.is_closed());
    assert_eq!(fx.events.as_slice(), &[ConnEvent::Closed(CloseReason::Unreachable)]);
}

#[test]
fn control_bits_count_in_the_segment_length() {
    assert_eq!(segment_len(&header(0, 0, ACK, 0), 7), 7);
    assert_eq!(segment_len(&header(0, 0, SYN, 0), 0), 1);
    assert_eq!(segment_len(&header(0, 0, ACK | FIN, 0), 7), 8);
}

#[test]
fn unreported_connection_is_offered_again() {
    let mut c = established();
    assert!(!c.needs_connected_event());
    c.set_reported(false);
    assert!(c.needs_connected_event());
    c.set_reported(true);
    assert!(!c.needs_connected_event());
}

#[test]
fn state_predicates() {
    assert!(!State::SynSent.synchronized());
    assert!(State::Established.synchronized());
    assert!(State::CloseWait.may_send());
    assert!(!State::FinWait1.may_send());
    assert!(State::FinWait2.may_receive());
    assert!(!State::CloseWait.may_receive());
}

#[test]
fn new_data_keeps_within_the_peer_window() {
    // In a window of 1500 the last 500 bytes wait for a segment worth sending.
    for (window, sent) in [(2000, 2000), (1500, 1000)] {
        let mut c = established_at(ISS, window);
        c.send(&[1u8; 4000]).unwrap();
        let out = plans(&mut c, t(20));
        let end = out.iter().map(|p| p.seq.0 + p.payload_len).max().unwrap();
        assert_eq!(end, ISS + 1 + sent);
        // Nothing more until the window opens.
        assert!(c.next_segment(t(20)).is_none());
    }
}

#[test]
fn retransmitted_data_is_not_timed() {
    let mut c = established();
    c.send(&[1u8; 10]).unwrap();
    plans(&mut c, t(20));
    assert!(c.tcb.rtt_sample.is_some());
    let before = c.tcb.rtt.srtt();
    let due = c.timer_deadline(TimerKind::Rexmit).unwrap();
    c.on_timer(due, TimerKind::Rexmit, &mut Effects::default());
    assert!(c.tcb.rtt_sample.is_none());
    plans(&mut c, due);
    assert!(c.tcb.rtt_sample.is_none());
    // The acknowledgement takes no sample.
    feed(&mut c, due, header(IRS + 1, ISS + 11, ACK, 1000), &[]);
    assert_eq!(c.tcb.rtt.srtt(), before);
}

#[test]
fn only_progress_resets_the_retry_count() {
    let mut c = established();
    c.send(&[1u8; 10]).unwrap();
    plans(&mut c, t(20));
    let due = c.timer_deadline(TimerKind::Rexmit).unwrap();
    c.on_timer(due, TimerKind::Rexmit, &mut Effects::default());
    plans(&mut c, due);
    assert_eq!(c.tcb.rexmit_count, 1);
    // Data with an old acknowledgement is no progress.
    feed(&mut c, due, header(IRS + 1, ISS + 1, ACK, 1000), b"x");
    assert_eq!(c.tcb.rexmit_count, 1);
    feed(&mut c, due, header(IRS + 2, ISS + 6, ACK, 1000), &[]);
    assert_eq!(c.tcb.rexmit_count, 0);
    assert!(c.timer_deadline(TimerKind::Rexmit).is_some());
}

#[test]
fn probes_back_off_and_give_up() {
    let mut cfg = config();
    cfg.max_persist_retries = 2;
    let (l, r) = ends();
    let mut c: Conn = Connection::client(&cfg, params(), l, r, SeqNr(ISS));
    c.next_segment(t(0)).unwrap();
    feed(&mut c, t(10), header(IRS, ISS + 1, SYN | ACK, 0), &[]);
    plans(&mut c, t(10));
    c.send(&[1u8; 10]).unwrap();
    c.update_send_timers(t(20));
    let mut now = t(20);
    let mut gaps = Vec::new();
    let mut fx = Effects::default();
    while !c.is_closed() {
        let due = c.timer_deadline(TimerKind::Persist).unwrap();
        gaps.push((due - now).as_millis());
        now = due;
        c.on_timer(now, TimerKind::Persist, &mut fx);
        for p in plans(&mut c, now) {
            assert_eq!((p.seq, p.payload_len), (SeqNr(ISS + 1), 1));
        }
    }
    assert_eq!(gaps, vec![1000, 2000, 4000]);
    assert_eq!(fx.events.as_slice(), &[ConnEvent::Closed(CloseReason::TimedOut)]);
}

#[test]
fn text_held_beyond_a_fin_is_dropped() {
    let mut c = established();
    let mut buf = [0u8; 32];
    feed(&mut c, t(20), header(IRS + 6, ISS + 1, ACK, 4000), b"0123456789");
    // The FIN stands where the held text begins.
    let fx = feed(&mut c, t(21), header(IRS + 6, ISS + 1, ACK | FIN, 4000), b"");
    assert!(fx.events.is_empty());
    assert_eq!((c.state(), c.rcv_nxt()), (State::Established, IRS + 1));
    let fx = feed(&mut c, t(22), header(IRS + 1, ISS + 1, ACK, 4000), b"hello");
    assert_eq!(fx.events.as_slice(), &[ConnEvent::Readable, ConnEvent::PeerFin]);
    assert_eq!((c.state(), c.rcv_nxt()), (State::CloseWait, IRS + 7));
    assert_eq!(c.recv(&mut buf), Ok(5));
    assert_eq!(&buf[..5], b"hello");
    assert_eq!(c.recv(&mut buf), Ok(0));
}

#[test]
fn text_beyond_a_noted_fin_is_cut() {
    let mut c = established();
    let mut buf = [0u8; 32];
    feed(&mut c, t(20), header(IRS + 6, ISS + 1, ACK | FIN, 4000), b"");
    // Five bytes more than the FIN leaves room for.
    feed(&mut c, t(21), header(IRS + 3, ISS + 1, ACK, 4000), b"cdeXXXXX");
    assert_eq!((c.state(), c.rcv_nxt()), (State::Established, IRS + 1));
    let fx = feed(&mut c, t(22), header(IRS + 1, ISS + 1, ACK, 4000), b"ab");
    assert_eq!(fx.events.as_slice(), &[ConnEvent::Readable, ConnEvent::PeerFin]);
    assert_eq!((c.state(), c.rcv_nxt()), (State::CloseWait, IRS + 7));
    let n = c.recv(&mut buf).unwrap();
    assert_eq!(&buf[..n], b"abcde");
    // Its ACK covers the FIN.
    assert_eq!(c.next_segment(t(22)).unwrap().ack, Some(SeqNr(IRS + 7)));
}

#[test]
fn window_that_closes_over_sent_data_is_given_up() {
    let mut c = established();
    c.send(&[6u8; 3000]).unwrap();
    assert_eq!(plans(&mut c, t(20)).len(), 3);
    c.send(&[6u8; 1000]).unwrap();
    // One segment arrives; the window closes over the other two.
    feed(&mut c, t(40), header(IRS + 1, ISS + 1001, ACK, 0), &[]);
    let mut fx = Effects::default();
    let mut expiries = 0u32;
    while !c.is_closed() {
        assert!(fx.events.is_empty());
        let kind = if c.timer_deadline(TimerKind::Rexmit).is_some() {
            TimerKind::Rexmit
        } else {
            TimerKind::Persist
        };
        let due = c.timer_deadline(kind).unwrap();
        c.on_timer(due, kind, &mut fx);
        plans(&mut c, due);
        expiries += 1;
    }
    let cfg = config();
    assert_eq!(expiries, cfg.max_data_retries as u32 + 1);
    assert_eq!(fx.events.as_slice(), &[ConnEvent::Closed(CloseReason::TimedOut)]);
}

#[test]
fn closing_keeps_what_was_received() {
    let mut c = established();
    let mut buf = [0u8; 2];
    feed(&mut c, t(20), header(IRS + 1, ISS + 1, ACK, 4000), b"hello");
    assert_eq!(c.recv(&mut buf), Ok(2));
    feed(&mut c, t(21), header(IRS + 6, ISS + 1, RST, 0), &[]);
    assert!(c.is_closed());
    assert_eq!(c.rcv_nxt(), IRS + 6);
    let mut rest = [0u8; 8];
    assert_eq!(c.recv(&mut rest), Ok(3));
    assert_eq!(&rest[..3], b"llo");
    assert_eq!(c.rcv_nxt(), IRS + 6);
}
