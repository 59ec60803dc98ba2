//! RTT estimation.
use tcp_sans_io::tcp::rtt::RttEstimator;
use tcp_sans_io::time::Duration;


fn est() -> RttEstimator {
    RttEstimator::new(Duration::from_secs(1), Duration::from_secs(1), Duration::from_secs(60))
}

#[test]
fn first_sample_initializes() {
    let mut e = est();
    assert_eq!(e.rto(), Duration::from_secs(1));
    e.on_sample(Duration::from_millis(400));
    // SRTT=400ms, RTTVAR=200ms -> RTO = 400 + 800 = 1200ms.
    assert_eq!(e.srtt(), Some(Duration::from_millis(400)));
    assert_eq!(e.rto(), Duration::from_millis(1200));
}

#[test]
fn smooths_and_respects_min() {
    let mut e = est();
    for _ in 0..50 {
        e.on_sample(Duration::from_millis(10));
    }
    // Stable 10ms RTT: variance decays, RTO hits the 1s floor
    // (RFC 6298 section 2.4).
    assert_eq!(e.rto(), Duration::from_secs(1));
    let srtt = e.srtt().unwrap().as_millis();
    assert!((9..=11).contains(&srtt), "srtt={srtt}ms");
}

#[test]
fn variance_reacts_to_jitter() {
    let mut e = est();
    e.on_sample(Duration::from_millis(100));
    e.on_sample(Duration::from_millis(2000));
    // Large deviation should push RTO well above the floor.
    assert!(e.rto() > Duration::from_secs(1));
}

#[test]
fn backoff_doubles_and_caps() {
    let mut e = est();
    e.on_sample(Duration::from_millis(500)); // RTO 500+1000 -> 1.5s
    let r0 = e.rto();
    e.backoff();
    assert_eq!(e.rto(), r0.saturating_mul(2));
    for _ in 0..10 {
        e.backoff();
    }
    assert_eq!(e.rto(), Duration::from_secs(60));
}
