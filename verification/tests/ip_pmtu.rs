//! Path-MTU cache.
use tcp_sans_io::ip::pmtu::{pmtu_ttl, PmtuCache};
use tcp_sans_io::ip::{IPV4_MIN_PMTU, IPV6_MIN_PMTU};
use tcp_sans_io::time::{Duration, Instant};
use tcp_sans_io::IpAddr;


const LINK: u16 = 1500;

fn t0() -> Instant {
    Instant::zero()
}

#[test]
fn lowers_and_ages_out() {
    let mut c: PmtuCache<4> = PmtuCache::new();
    let dst = IpAddr::v4(192, 0, 2, 1);
    assert_eq!(c.get(t0(), LINK, &dst), 1500);
    assert_eq!(c.update(t0(), LINK, &dst, 1280), 1280);
    assert_eq!(c.get(t0(), LINK, &dst), 1280);
    // A *higher* report never raises the cached estimate but
    // the clamped value is still returned for per-conn propagation.
    assert_eq!(c.update(t0(), LINK, &dst, 1400), 1400);
    assert_eq!(c.get(t0(), LINK, &dst), 1280);
    // After the TTL the link MTU is used again.
    let later = t0() + pmtu_ttl() + Duration::from_secs(1);
    assert_eq!(c.get(later, LINK, &dst), 1500);
}

#[test]
fn zero_report_uses_plateau() {
    let mut c: PmtuCache<4> = PmtuCache::new();
    let dst = IpAddr::v4(192, 0, 2, 2);
    // From 1500 the next plateau down is 1492, then 1006...
    assert_eq!(c.update(t0(), LINK, &dst, 0), 1492);
    assert_eq!(c.update(t0(), LINK, &dst, 0), 1006);
}

#[test]
fn family_floors_apply() {
    let mut c: PmtuCache<4> = PmtuCache::new();
    let v4 = IpAddr::v4(192, 0, 2, 3);
    let v6 = IpAddr::v6([0xfc00, 0, 0, 0, 0, 0, 0, 1]);
    assert_eq!(c.update(t0(), LINK, &v4, 100), IPV4_MIN_PMTU);
    assert_eq!(c.update(t0(), LINK, &v6, 100), IPV6_MIN_PMTU);
    // Already at the floor: nothing lowers further.
    assert_eq!(c.update(t0(), LINK, &v6, 64), IPV6_MIN_PMTU);
    assert_eq!(c.get(t0(), LINK, &v6), IPV6_MIN_PMTU);
}

#[test]
fn misconfigured_link_mtu_below_floor_does_not_panic() {
    // cfg.mtu < family floor must not abort on the next ICMP PTB.
    let mut c: PmtuCache<4> = PmtuCache::new();
    let v6 = IpAddr::v6([0xfc00, 0, 0, 0, 0, 0, 0, 2]);
    assert_eq!(c.update(t0(), 1000, &v6, 800), IPV6_MIN_PMTU);
}

#[test]
fn eviction_prefers_soonest_expiry() {
    let mut c: PmtuCache<2> = PmtuCache::new();
    let a = IpAddr::v4(1, 1, 1, 1);
    let b = IpAddr::v4(2, 2, 2, 2);
    let d = IpAddr::v4(3, 3, 3, 3);
    c.update(t0(), LINK, &a, 1000);
    c.update(t0() + Duration::from_secs(10), LINK, &b, 1000);
    c.update(t0() + Duration::from_secs(20), LINK, &d, 900); // evicts a
    assert_eq!(c.get(t0() + Duration::from_secs(21), LINK, &a), 1500);
    assert_eq!(c.get(t0() + Duration::from_secs(21), LINK, &b), 1000);
    assert_eq!(c.get(t0() + Duration::from_secs(21), LINK, &d), 900);
}
