//! IPv6 headers.
use tcp_sans_io::wire::ipv6::{emit, parse, NEXT_FRAGMENT, NEXT_HOP_BY_HOP};
use tcp_sans_io::wire::{proto, write_u16, WireError};


const SRC: [u8; 16] = [0xfc, 0, 0, 0, 0, 0, 0, 0, 0, 0, 0, 0, 0, 0, 0, 1];
const DST: [u8; 16] = [0xfc, 0, 0, 0, 0, 0, 0, 0, 0, 0, 0, 0, 0, 0, 0, 2];

#[test]
fn ipv6_emit_parse_round_trip() {
    let mut buf = [0u8; 64];
    let hl = emit(&SRC, &DST, proto::TCP, 64, 4, &mut buf);
    buf[hl..hl + 4].copy_from_slice(b"abcd");
    let (h, payload) = parse(&buf[..hl + 4]).unwrap();
    assert_eq!(h.src, SRC);
    assert_eq!(h.dst, DST);
    assert_eq!(h.proto, 6);
    assert_eq!(h.hop_limit, 64);
    assert!(h.frag.is_none());
    assert_eq!(payload, b"abcd");
}

#[test]
fn walks_extension_headers() {
    let mut buf = [0u8; 80];
    emit(&SRC, &DST, NEXT_HOP_BY_HOP, 64, 8 + 4, &mut buf);
    // Hop-by-hop: next = TCP, len = 0 (8 bytes), padded options.
    buf[40] = proto::TCP;
    buf[41] = 0;
    buf[48..52].copy_from_slice(b"abcd");
    let (h, payload) = parse(&buf[..52]).unwrap();
    assert_eq!(h.proto, 6);
    assert_eq!(payload, b"abcd");
}

#[test]
fn parses_fragment_header() {
    let mut buf = [0u8; 80];
    emit(&SRC, &DST, NEXT_FRAGMENT, 64, 8 + 8, &mut buf);
    buf[40] = proto::TCP; // inner next
    buf[41] = 0;
    // offset 16 bytes => raw units 2 => bits 3..15; M=1.
    write_u16(&mut buf, 42, (2 << 3) | 1);
    buf[44..48].copy_from_slice(&0xdead_beefu32.to_be_bytes());
    buf[48..56].copy_from_slice(b"01234567");
    let (h, payload) = parse(&buf[..56]).unwrap();
    let f = h.frag.unwrap();
    assert_eq!(f.ident, 0xdead_beef);
    assert_eq!(f.offset, 16);
    assert!(f.more);
    assert_eq!(f.next, 6);
    assert_eq!(payload, b"01234567");
}

#[test]
fn ipv6_rejects_malformed() {
    let mut buf = [0u8; 64];
    let hl = emit(&SRC, &DST, 6, 64, 4, &mut buf);
    assert_eq!(parse(&buf[..hl - 1]), Err(WireError::Truncated));
    let mut bad = buf;
    bad[0] = 0x45;
    assert_eq!(parse(&bad[..hl + 4]), Err(WireError::BadVersion));
    // Extension header running past the payload end.
    let mut bad = [0u8; 48];
    emit(&SRC, &DST, NEXT_HOP_BY_HOP, 64, 8, &mut bad);
    bad[40] = 6;
    bad[41] = 200; // claims 1608 bytes
    assert_eq!(parse(&bad[..48]), Err(WireError::BadExtensionHeader));
}
