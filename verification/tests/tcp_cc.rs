//! Congestion control.
use tcp_sans_io::tcp::cc::{CongestionControl, CWND_MAX};


const MSS: u32 = 1460;

#[test]
fn initial_window_rfc3390() {
    assert_eq!(CongestionControl::new(1460).cwnd, 4380); // max(2920,4380)
    assert_eq!(CongestionControl::new(536).cwnd, 2144); // min(2144, 4380)
    assert_eq!(CongestionControl::new(2400).cwnd, 4800); // min(9600, max(4800,4380))
}

#[test]
fn slow_start_doubles_per_rtt() {
    let mut cc = CongestionControl::new(MSS);
    let start = cc.cwnd;
    assert!(cc.in_slow_start());
    // Three full-MSS ACKs grow cwnd by 3*MSS.
    for _ in 0..3 {
        cc.on_new_ack(MSS);
    }
    assert_eq!(cc.cwnd, start + 3 * MSS);
}

#[test]
fn congestion_avoidance_is_linear() {
    let mut cc = CongestionControl::new(MSS);
    cc.ssthresh = cc.cwnd; // force CA
    let before = cc.cwnd;
    // ABC: a full cwnd of bytes acked -> one MSS added.
    cc.on_new_ack(before);
    assert_eq!(cc.cwnd, before + MSS);
    assert!(!cc.in_slow_start());
}

/// splitting one MSS-sized segment into byte-ACKs must not grow
/// cwnd faster than one cumulative ACK would.
#[test]
fn ack_division_does_not_accelerate_ca() {
    let mut a = CongestionControl::new(MSS);
    let mut b = CongestionControl::new(MSS);
    a.ssthresh = a.cwnd;
    b.ssthresh = b.cwnd;
    let cwnd0 = a.cwnd;
    // One window's worth of data, ACKed as one chunk vs. as bytes.
    a.on_new_ack(cwnd0);
    for _ in 0..cwnd0 {
        b.on_new_ack(1);
    }
    assert_eq!(a.cwnd, b.cwnd, "ACK division must not accelerate CA growth");
}

/// a flood of dup-ACKs cannot inflate cwnd past what
/// segments-outstanding-at-entry would justify.
#[test]
fn dupack_inflation_is_bounded_by_flight() {
    let mut cc = CongestionControl::new(MSS);
    cc.cwnd = 16 * MSS;
    cc.enter_fast_recovery(16 * MSS);
    let after_entry = cc.cwnd; // ssthresh + 3*MSS
    for _ in 0..10_000 {
        cc.inflate();
    }
    // 16 segments in flight, 3 already accounted at entry -> <= 13 more.
    assert!(cc.cwnd <= after_entry + 13 * MSS);
}

#[test]
fn partial_ack_division_does_not_grow_cwnd() {
    // a malicious receiver splitting one segment's
    // acknowledgment into N 1-byte partial ACKs must not grow cwnd
    // by ~N*MSS (the third Savage'99 vector - `inflate` and
    // `on_new_ack` were already guarded; `on_partial_ack` was not).
    let mut cc = CongestionControl::new(MSS);
    cc.cwnd = 16 * MSS;
    cc.enter_fast_recovery(16 * MSS);
    let after_entry = cc.cwnd;
    for _ in 0..1_000_000 {
        cc.on_partial_ack(1);
    }
    assert!(
        cc.cwnd <= after_entry,
        "cwnd grew under partial-ACK division: {} > {}",
        cc.cwnd,
        after_entry
    );
    assert!(cc.cwnd <= CWND_MAX);
}

#[test]
fn rto_collapses_window() {
    let mut cc = CongestionControl::new(MSS);
    cc.cwnd = 20 * MSS;
    cc.ssthresh = 10 * MSS;
    cc.on_rto(20 * MSS);
    assert_eq!(cc.ssthresh, 10 * MSS);
    assert_eq!(cc.cwnd, MSS);
    // Floor: 2*SMSS.
    cc.on_rto(MSS);
    assert_eq!(cc.ssthresh, 2 * MSS);
}

#[test]
fn newreno_recovery_window_accounting() {
    let mut cc = CongestionControl::new(MSS);
    cc.cwnd = 16 * MSS;
    cc.ssthresh = 16 * MSS;
    cc.enter_fast_recovery(16 * MSS);
    assert_eq!(cc.ssthresh, 8 * MSS);
    assert_eq!(cc.cwnd, 11 * MSS);
    assert_eq!(cc.inflate_budget, 13);
    cc.inflate();
    assert_eq!(cc.cwnd, 12 * MSS);
    cc.on_partial_ack(4 * MSS);
    assert_eq!(cc.cwnd, 9 * MSS);
    cc.exit_recovery();
    assert_eq!(cc.cwnd, 8 * MSS);
}

#[test]
fn sack_recovery_halves_without_inflation() {
    let mut cc = CongestionControl::new(MSS);
    cc.cwnd = 16 * MSS;
    cc.ssthresh = 16 * MSS;
    cc.enter_sack_recovery(16 * MSS);
    assert_eq!(cc.cwnd, 8 * MSS);
    assert_eq!(cc.ssthresh, 8 * MSS);
}
