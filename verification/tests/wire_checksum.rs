//! Internet checksum.
use tcp_sans_io::wire::checksum::{over, Checksum};


// RFC 1071 section 3 worked example.
#[test]
fn rfc1071_example() {
    let data = [0x00u8, 0x01, 0xf2, 0x03, 0xf4, 0xf5, 0xf6, 0xf7];
    assert_eq!(over(&data), !0xddf2);
}

#[test]
fn parity_carries_across_chunks() {
    let whole = [1u8, 2, 3, 4, 5, 6, 7];
    let mut split = Checksum::new();
    split.add_bytes(&whole[..3]); // odd chunk
    split.add_bytes(&whole[3..6]);
    split.add_bytes(&whole[6..]);
    assert_eq!(split.finish(), over(&whole));
}

#[test]
fn verify_round_trip() {
    let mut data = [
        0x45u8, 0x00, 0x00, 0x1c, 0x12, 0x34, 0x40, 0x00, 0x40, 0x06, 0, 0, 10, 0, 0, 1, 10, 0,
        0, 2,
    ];
    let cks = over(&data);
    data[10..12].copy_from_slice(&cks.to_be_bytes());
    assert_eq!(over(&data), 0);
}

#[test]
fn no_overflow_on_large_input() {
    let data = [0xffu8; 65536];
    let mut c = Checksum::new();
    c.add_bytes(&data);
    let _ = c.finish(); // must not panic in debug (overflow checks on)
}
