//! The parts of the stack on concrete values: time, sequence numbers, buffers,
//! congestion control, reassembly, path sizes, initial sequence numbers.
use tcp_sans_io::config::Config;
use tcp_sans_io::ip::frag::{fragment_v4, FragError};
use tcp_sans_io::ip::pmtu::PmtuCache;
use tcp_sans_io::ip::reasm::{ReasmResult, Reassembler};
use tcp_sans_io::ip::ReasmKey;
use tcp_sans_io::tcp::cc::{CongestionControl, CWND_MAX};
use tcp_sans_io::tcp::isn::IsnGenerator;
use tcp_sans_io::tcp::recvbuf::RecvBuffer;
use tcp_sans_io::tcp::rtt::RttEstimator;
use tcp_sans_io::tcp::sack::SackScoreboard;
use tcp_sans_io::tcp::sendbuf::SendBuffer;
use tcp_sans_io::tcp::seq::SeqNr;
use tcp_sans_io::time::{Duration, Instant};
use tcp_sans_io::util::{BoundedQueue, BoundedVec};
use tcp_sans_io::wire::ipv4::Ipv4Emit;
use tcp_sans_io::{Error, IpAddr};

#[test]
fn time_saturates() {
    let end = Instant::from_micros(u64::MAX);
    assert_eq!(end + Duration::from_secs(1), end);
    assert_eq!(Duration::from_micros(u64::MAX).saturating_mul(2).as_micros(), u64::MAX);
    assert_eq!(Duration::from_micros(7).div(2).as_micros(), 3);
    assert_eq!(Duration::from_micros(7).saturating_sub(Duration::from_micros(8)), Duration::zero());
    let mut t = Instant::from_secs(1);
    t += Duration::from_millis(500);
    assert_eq!(t.saturating_since(Instant::from_secs(1)), Duration::from_millis(500));
    assert_eq!(Duration::from_millis(3).max(Duration::from_millis(4)).as_millis(), 4);
    assert_eq!(Duration::from_millis(3).min(Duration::from_millis(4)).as_millis(), 3);
}

#[test]
fn sequence_numbers_compare_across_the_wrap() {
    let a = SeqNr(u32::MAX - 1);
    let b = a.add(5);
    assert_eq!(b, SeqNr(3));
    assert!(a.lt(b) && a.le(b) && b.gt(a) && b.ge(a) && !a.lt(a));
    assert_eq!(b.since(a), 5);
    assert_eq!(b.sub(5), a);
    assert_eq!((a.max(b), a.min(b)), (b, a));
    assert!(SeqNr(0).in_window(a, 5));
    assert!(!SeqNr(3).in_window(a, 5));
    // Half the space apart: neither is before the other by more than half.
    assert!(SeqNr(0).lt(SeqNr(0x7FFF_FFFF)));
    assert!(!SeqNr(0).lt(SeqNr(0x8000_0001)));
}

#[test]
fn send_buffer_keeps_order_across_its_end() {
    let mut b: SendBuffer<8> = SendBuffer::new();
    assert_eq!(b.write(b"abcdef"), 6);
    b.ack(4);
    assert_eq!(b.write(b"ghijklm"), 6);
    assert_eq!((b.len(), b.space()), (8, 0));
    let (x, y) = b.read(1, 6);
    assert_eq!([x, y].concat(), b"fghijk");
    b.ack(3);
    b.ack(5);
    assert!(b.is_empty());
}

#[test]
fn receive_buffer_ignores_what_lies_beyond_its_window() {
    let mut b: RecvBuffer<8> = RecvBuffer::new();
    assert_eq!(b.window(), 8);
    b.insert(6, b"GHIJ");
    let r = b.insert(0, b"ABCDEF");
    assert_eq!(r.advance, 8);
    assert_eq!(b.window(), 0);
    assert_eq!(b.insert(0, b"x").advance, 0);
    let mut out = [0u8; 16];
    assert_eq!(b.read(&mut out), 8);
    assert_eq!(&out[..8], b"ABCDEFGH");
    assert_eq!((b.readable(), b.capacity()), (0, 8));
}

#[test]
fn scoreboard_forgets_what_is_cleared() {
    let mut s = SackScoreboard::new();
    s.ingest(&[(200, 300), (400, 450)], SeqNr(100), SeqNr(1000));
    assert_eq!(s.sacked_bytes(), 150);
    assert!(s.is_sacked(SeqNr(200), 100));
    assert!(!s.is_sacked(SeqNr(200), 101));
    s.clear();
    assert_eq!((s.sacked_bytes(), s.high_sacked()), (0, None));
}

#[test]
fn slow_start_grows_by_the_bytes_at_most() {
    let mut cc = CongestionControl::new(1000);
    let start = cc.cwnd;
    for _ in 0..100 {
        cc.on_new_ack(3);
    }
    assert_eq!(cc.cwnd, start + 300);
    // More than a segment at once counts as one segment.
    cc.on_new_ack(5000);
    assert_eq!(cc.cwnd, start + 1300);
}

#[test]
fn window_has_a_ceiling_and_a_new_segment_size_keeps_it_positive() {
    let mut cc = CongestionControl::new(1000);
    cc.cwnd = CWND_MAX;
    cc.on_new_ack(1000);
    assert_eq!(cc.cwnd, CWND_MAX);
    cc.set_mss(500);
    assert_eq!(cc.mss, 500);
    assert!(cc.cwnd > 0);
}

#[test]
fn estimator_weighs_samples() {
    let mut e = RttEstimator::new(
        Duration::from_secs(1),
        Duration::from_millis(1),
        Duration::from_secs(60),
    );
    e.on_sample(Duration::from_millis(80));
    e.on_sample(Duration::from_millis(160));
    // SRTT = 7/8 * 80 + 1/8 * 160 = 90 ms; RTTVAR = 3/4 * 40 + 1/4 * 80 = 50 ms.
    assert_eq!(e.srtt(), Some(Duration::from_millis(90)));
    assert_eq!(e.rto(), Duration::from_millis(290));
}

#[test]
fn hash_domains_differ() {
    let mut g = IsnGenerator::new();
    assert_eq!(g.keyed_hash(1, 7), None);
    g.seed([9; 16]);
    let a = g.keyed_hash(1, 7).unwrap();
    assert_ne!(Some(a), g.keyed_hash(2, 7));
    assert_ne!(Some(a), g.keyed_hash(1, 8));
    assert_eq!(Some(a), g.keyed_hash(1, 7));
}

fn key(ident: u32) -> ReasmKey {
    ReasmKey { src: IpAddr::v4(10, 0, 0, 1), dst: IpAddr::v4(10, 0, 0, 2), proto: 17, ident }
}

#[test]
fn fragments_reassemble_whatever_their_order() {
    let payload: Vec<u8> = (0..1000u32).map(|i| (i * 7) as u8).collect();
    let base = Ipv4Emit::datagram([10, 0, 0, 1], [10, 0, 0, 2], 17, 64, 5, false);
    let mut it = fragment_v4(base, &payload, 300).unwrap();
    let mut frags: Vec<(u32, bool, Vec<u8>)> = Vec::new();
    while let Some((h, part)) = it.next() {
        frags.push((h.frag_offset as u32, h.more_frags, part.to_vec()));
    }
    assert_eq!(frags.len(), 4);
    frags.swap(0, 3);
    frags.swap(1, 2);
    let mut r = Reassembler::new();
    let mut done = None;
    for (off, more, data) in &frags {
        let at = Instant::zero();
        let res = r.push(at, Duration::from_secs(30), key(5), *off, *more, data);
        if let ReasmResult::Complete { slot } = res {
            done = Some(slot);
        }
    }
    let slot = done.unwrap();
    let (k, bytes) = r.completed(slot).unwrap();
    assert_eq!(k, key(5));
    assert_eq!(bytes, &payload[..]);
    let generation = r.generation(slot);
    r.release(slot);
    assert_eq!(r.completed(slot).map(|(k, _)| k), None);
    assert_eq!(r.deadline(slot), None);
    // Another datagram in the same slot goes by another generation.
    r.push(Instant::zero(), Duration::from_secs(30), key(6), 0, true, &[0; 8]);
    assert_eq!(r.deadline(slot), Some(Instant::from_secs(30)));
    assert_ne!(r.generation(slot), generation);
}

#[test]
fn fragmentation_errors() {
    let base = Ipv4Emit::datagram([1, 1, 1, 1], [2, 2, 2, 2], 17, 64, 5, false);
    let payload = [0u8; 100];
    assert_eq!(fragment_v4(base, &payload, 27).err(), Some(FragError::MtuTooSmall));
    assert!(fragment_v4(base, &payload, 28).is_ok());
    let df = Ipv4Emit::datagram([1, 1, 1, 1], [2, 2, 2, 2], 17, 64, 5, true);
    assert_eq!(fragment_v4(df, &payload, 119).err(), Some(FragError::DontFragment));
    assert!(fragment_v4(df, &payload, 120).is_ok());
}

#[test]
fn reported_sizes_never_exceed_the_link() {
    let mut c: PmtuCache<2> = PmtuCache::new();
    let dst = IpAddr::v4(192, 0, 2, 1);
    assert_eq!(c.update(Instant::zero(), 1500, &dst, 100_000), 1500);
    assert_eq!(c.get(Instant::zero(), 1500, &dst), 1500);
}

#[test]
fn containers_at_their_limits() {
    let mut v: BoundedVec<u8, 2> = BoundedVec::new();
    v.push(4).unwrap();
    assert_eq!(v.insert(5, 1), Err(1));
    assert_eq!(v.remove(1), None);
    v.set(0, 9);
    v.as_mut_slice()[0] += 1;
    assert_eq!((v.get(0), v.len()), (10, 1));
    assert_eq!(v.iter().count(), 1);
    let mut q: BoundedQueue<u8, 2> = BoundedQueue::new();
    q.push_back(1).unwrap();
    assert!(!q.is_empty() && !q.is_full() && q.len() == 1);
    q.clear();
    assert_eq!(q.pop_front(), None);
}

#[test]
fn configuration_is_forced_into_range() {
    let mut c = Config::with_addr(IpAddr::v4(10, 0, 0, 1));
    assert!(!c.normalize());
    c.local_addrs.push(IpAddr::v4(224, 0, 0, 1)).unwrap();
    c.mtu = 10;
    c.ttl = 0;
    c.rto_min = Duration::from_secs(3);
    c.rto_max = Duration::from_secs(2);
    c.rto_initial = Duration::zero();
    c.max_data_retries = 0;
    c.max_persist_retries = 0;
    c.delayed_ack_timeout = Duration::from_secs(9);
    c.recv_window_scale = 99;
    c.mss_override = Some(1);
    c.reassembly_timeout = Duration::zero();
    assert!(c.normalize());
    assert_eq!(c.local_addrs.as_slice(), &[IpAddr::v4(10, 0, 0, 1)]);
    assert!(c.is_local(&IpAddr::v4(10, 0, 0, 1)));
    assert!(!c.is_local(&IpAddr::v4(224, 0, 0, 1)));
    assert_eq!((c.ttl, c.max_data_retries, c.max_persist_retries), (1, 1, 1));
    assert_eq!((c.rto_min, c.rto_max), (Duration::from_secs(3), Duration::from_secs(3)));
    assert_eq!(c.rto_initial, Duration::from_secs(3));
    assert_eq!(c.delayed_ack_timeout, Duration::from_millis(499));
    assert_eq!((c.recv_window_scale, c.mss_override), (14, Some(64)));
    assert_eq!(c.reassembly_timeout, Duration::from_secs(1));
    assert!(!c.normalize());
}

#[test]
fn errors_describe_themselves() {
    assert_eq!(Error::NoSlot.as_str(), "no free connection slot");
    assert_eq!(Error::NeedEntropy.as_str(), "entropy not yet provided");
    assert_eq!(Error::NotFound.as_str(), "unknown or stale socket handle");
    assert_eq!(Error::InvalidState.as_str(), "operation invalid in current state");
    assert_eq!(Error::BufferFull.as_str(), "no buffer or table space available");
    assert_eq!(Error::AddrInUse.as_str(), "address or port already in use");
    assert_eq!(Error::Unaddressable.as_str(), "no local address of a matching family");
    assert_eq!(Error::ConnectionGone.as_str(), "connection reset or aborted");
}
