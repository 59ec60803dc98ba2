//! Virtual time.
use tcp_sans_io::time::{Duration, Instant};


#[test]
fn arithmetic() {
    let t0 = Instant::from_millis(100);
    let t1 = t0 + Duration::from_millis(50);
    assert_eq!(t1.as_micros(), 150_000);
    assert_eq!((t1 - t0).as_millis(), 50);
    assert_eq!((t0 - t1), Duration::zero()); // saturating
    assert_eq!(Duration::from_secs(1).saturating_mul(2).as_millis(), 2000);
    let d = Duration::from_millis(500);
    assert_eq!(d.clamp(Duration::from_secs(1), Duration::from_secs(60)), Duration::from_secs(1));
}
