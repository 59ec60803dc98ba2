//! ICMP messages.
use tcp_sans_io::wire::icmp::{
    emit_v4, emit_v6, parse_v4, parse_v6, quoted_tcp, v4, v6, IcmpMessage, QuotedTcp,
};
use tcp_sans_io::wire::{write_u16, WireError};


#[test]
fn v4_round_trip() {
    let mut buf = [0u8; 64];
    let len = emit_v4(v4::ECHO_REQUEST, 0, [0, 1, 0, 2], b"payload", &mut buf);
    let (m, body) = parse_v4(&buf[..len]).unwrap();
    assert_eq!(m.kind, v4::ECHO_REQUEST);
    assert_eq!(m.rest, [0, 1, 0, 2]);
    assert_eq!(body, b"payload");
    let mut bad = buf;
    bad[4] ^= 0xff;
    assert_eq!(parse_v4(&bad[..len]).unwrap_err(), WireError::BadChecksum);
}

#[test]
fn v6_round_trip_with_pseudo() {
    let s = [1u8; 16];
    let d = [2u8; 16];
    let mut buf = [0u8; 64];
    let len = emit_v6(v6::ECHO_REPLY, 0, [0; 4], b"abc", &s, &d, &mut buf);
    let (m, body) = parse_v6(&buf[..len], &s, &d).unwrap();
    assert_eq!(m.kind, v6::ECHO_REPLY);
    assert_eq!(body, b"abc");
    // Wrong pseudo-header must fail (note: swapping src/dst would NOT
    // change the sum - ones-complement addition is commutative).
    let other = [3u8; 16];
    assert!(parse_v6(&buf[..len], &other, &d).is_err());
}

#[test]
fn quoted_tcp_fields() {
    let mut l4 = [0u8; 12];
    write_u16(&mut l4, 0, 8080);
    write_u16(&mut l4, 2, 443);
    l4[4..8].copy_from_slice(&0xdead_beefu32.to_be_bytes());
    let q = quoted_tcp(&l4).unwrap();
    assert_eq!(
        q,
        QuotedTcp {
            src_port: 8080,
            dst_port: 443,
            seq: 0xdead_beef
        }
    );
    assert_eq!(quoted_tcp(&l4[..7]).unwrap_err(), WireError::Truncated);
}

#[test]
fn mtu_field() {
    // RFC 1191: bytes 4-5 are unused; only 6-7 carry the MTU. A router
    // leaving garbage in the unused bytes must still be understood.
    let m = IcmpMessage {
        kind: v4::DEST_UNREACHABLE,
        code: v4::CODE_FRAG_NEEDED,
        rest: [0xAB, 0xCD, 0x05, 0xdc],
    };
    assert_eq!(m.mtu_v4(), 1500);
    assert_eq!(m.mtu_v6(), 0xABCD_05DC);
}
