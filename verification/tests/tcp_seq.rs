//! Sequence-number arithmetic.
use tcp_sans_io::tcp::seq::SeqNr;


#[test]
fn ordering_across_wraparound() {
    let a = SeqNr(u32::MAX - 1);
    let b = a.add(10); // wraps to 8
    assert_eq!(b, SeqNr(8));
    assert!(a.lt(b) && b.gt(a) && a.le(b) && b.ge(a));
    assert!(!b.lt(a));
    assert_eq!(b.since(a), 10);
    assert_eq!(b.sub(10), a);
    assert_eq!(a.max(b), b);
    assert_eq!(a.min(b), a);
}

#[test]
fn window_membership() {
    let start = SeqNr(u32::MAX - 4);
    assert!(start.in_window(start, 1));
    assert!(start.add(9).in_window(start, 10));
    assert!(!start.add(10).in_window(start, 10));
    assert!(!start.sub(1).in_window(start, 10));
    // Zero-length window contains nothing.
    assert!(!start.in_window(start, 0));
}

#[test]
fn equal_is_not_less() {
    let a = SeqNr(1000);
    assert!(a.le(a) && a.ge(a) && !a.lt(a) && !a.gt(a));
}

/// `lt` iff the forward distance is in [1, 2^31 - 1]; `le` iff it is at most
/// 2^31 (antipode included); `since` is the forward distance; `in_window`
/// compares it to the length; add and since round-trip. Over a lattice of
/// wraparound and antipode boundary values.
#[test]
fn coq_characterizations_hold_on_boundary_lattice() {
    const HW: u64 = 1 << 31;
    const W: u64 = 1 << 32;
    let pts = [
        0u32,
        1,
        2,
        0x7FFF_FFFE,
        0x7FFF_FFFF, // HW - 1
        0x8000_0000, // HW (the antipode distance pivot)
        0x8000_0001,
        0xFFFF_FFFE,
        0xFFFF_FFFF,
        12_345,
        0xDEAD_BEEF,
    ];
    for &a in &pts {
        for &b in &pts {
            let (sa, sb) = (SeqNr(a), SeqNr(b));
            let d = (u64::from(b) + W - u64::from(a)) % W; // forward distance
            assert_eq!(sa.lt(sb), (1..HW).contains(&d), "ltb_charact {a:#x} {b:#x}");
            assert_eq!(sa.le(sb), d <= HW, "leb_charact {a:#x} {b:#x}");
            assert_eq!(u64::from(sb.since(sa)), d, "since is the distance");
            assert_eq!(sa.add(sb.since(sa)), sb, "since_add round-trip");
            for len in [0u32, 1, 5, u32::MAX] {
                assert_eq!(
                    sb.in_window(sa, len),
                    d < u64::from(len),
                    "in_window_spec {a:#x} {b:#x} {len}"
                );
            }
        }
    }
}
