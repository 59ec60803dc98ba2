//! IP reassembly.
use tcp_sans_io::config::{REASM_BUF_SIZE, REASM_SLOTS};
use tcp_sans_io::ip::reasm::{ReasmResult, Reassembler};
use tcp_sans_io::ip::ReasmKey;
use tcp_sans_io::time::{Duration, Instant};
use tcp_sans_io::IpAddr;


fn t0() -> Instant {
    Instant::zero()
}

fn tmo() -> Duration {
    Duration::from_secs(30)
}

fn key(ident: u32) -> ReasmKey {
    ReasmKey {
        src: IpAddr::v4(10, 0, 0, 1),
        dst: IpAddr::v4(10, 0, 0, 2),
        proto: 6,
        ident,
    }
}

#[test]
fn in_order_and_reverse_reassembly() {
    for order in [[0usize, 1, 2], [2, 1, 0], [1, 2, 0]] {
        let mut r = Reassembler::new();
        let frags = [(0u32, true, [1u8; 16]), (16, true, [2u8; 16]), (32, false, [3u8; 16])];
        let mut done = None;
        for &i in &order {
            let (off, more, ref data) = frags[i];
            match r.push(t0(), tmo(), key(1), off, more, data) {
                ReasmResult::Complete { slot } => done = Some(slot),
                ReasmResult::Pending => {}
                ReasmResult::Dropped => panic!("dropped in order {order:?}"),
            }
        }
        let mut out = [0u8; REASM_BUF_SIZE];
        let (k, len) = r.take(done.expect("completed"), &mut out).unwrap();
        assert_eq!(k, key(1));
        assert_eq!(len, 48);
        assert_eq!(&out[..16], &[1; 16]);
        assert_eq!(&out[16..32], &[2; 16]);
        assert_eq!(&out[32..48], &[3; 16]);
    }
}

#[test]
fn exact_duplicate_tolerated_conflict_dropped() {
    let mut r = Reassembler::new();
    assert_eq!(r.push(t0(), tmo(), key(1), 0, true, &[7; 16]), ReasmResult::Pending);
    // Exact duplicate: benign.
    assert_eq!(r.push(t0(), tmo(), key(1), 0, true, &[7; 16]), ReasmResult::Pending);
    // Same range, different bytes: hostile, datagram dropped.
    assert_eq!(r.push(t0(), tmo(), key(1), 0, true, &[8; 16]), ReasmResult::Dropped);
    // Reassembly state is gone; a fresh final fragment alone completes
    // nothing.
    assert_eq!(r.push(t0(), tmo(), key(1), 16, false, &[9; 8]), ReasmResult::Pending);
}

#[test]
fn partial_overlap_drops_datagram() {
    let mut r = Reassembler::new();
    assert_eq!(r.push(t0(), tmo(), key(1), 8, true, &[1; 16]), ReasmResult::Pending);
    // Overlaps [8,24) partially.
    assert_eq!(r.push(t0(), tmo(), key(1), 0, true, &[2; 16]), ReasmResult::Dropped);
}

#[test]
fn oversize_and_misaligned_dropped() {
    let mut r = Reassembler::new();
    let big = [0u8; 64];
    assert_eq!(
        r.push(t0(), tmo(), key(1), (REASM_BUF_SIZE - 32) as u32, true, &big),
        ReasmResult::Dropped
    );
    // Non-final fragment not a multiple of 8.
    assert_eq!(r.push(t0(), tmo(), key(2), 0, true, &[0; 12]), ReasmResult::Dropped);
}

#[test]
fn timer_expiry_frees_slot() {
    let mut r = Reassembler::new();
    r.push(t0(), tmo(), key(1), 0, true, &[1; 8]);
    assert!(r.deadline(0).is_some());
    r.on_timer(0);
    assert!(r.deadline(0).is_none());
    let mut out = [0u8; REASM_BUF_SIZE];
    assert!(r.take(0, &mut out).is_none());
}

#[test]
fn slot_exhaustion_drops_new() {
    let mut r = Reassembler::new();
    for i in 0..REASM_SLOTS as u32 {
        assert_eq!(r.push(t0(), tmo(), key(i), 0, true, &[0; 8]), ReasmResult::Pending);
    }
    assert_eq!(r.push(t0(), tmo(), key(99), 0, true, &[0; 8]), ReasmResult::Dropped);
    // But expired slots are reclaimed lazily (offset 0 + !MF is a
    // complete single-fragment datagram, hence Complete).
    let later = t0() + tmo() + Duration::from_secs(1);
    assert_eq!(
        r.push(later, tmo(), key(99), 0, false, &[0; 8]),
        ReasmResult::Complete { slot: 0 }
    );
}

#[test]
fn conflicting_final_fragments_drop() {
    let mut r = Reassembler::new();
    assert_eq!(r.push(t0(), tmo(), key(1), 32, false, &[1; 8]), ReasmResult::Pending);
    assert_eq!(r.push(t0(), tmo(), key(1), 48, false, &[1; 8]), ReasmResult::Dropped);
}
