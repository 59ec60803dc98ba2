//! IPv4 headers.
use tcp_sans_io::wire::checksum::Checksum;
use tcp_sans_io::wire::ipv4::{parse, Ipv4Emit};
use tcp_sans_io::wire::{proto, write_u16, WireError};


#[test]
fn ipv4_emit_parse_round_trip() {
    let mut buf = [0u8; 64];
    let emit =
        Ipv4Emit::datagram([10, 0, 0, 1], [10, 0, 0, 2], proto::TCP, 64, 7, true);
    let hl = emit.emit(4, &mut buf);
    buf[hl..hl + 4].copy_from_slice(b"abcd");
    let (h, payload) = parse(&buf[..hl + 4]).unwrap();
    assert_eq!(h.src, [10, 0, 0, 1]);
    assert_eq!(h.dst, [10, 0, 0, 2]);
    assert_eq!(h.proto, 6);
    assert_eq!(h.ttl, 64);
    assert_eq!(h.ident, 7);
    assert!(h.dont_frag && !h.more_frags && h.frag_offset == 0);
    assert!(!h.is_fragment());
    assert_eq!(payload, b"abcd");
}

#[test]
fn fragment_fields_round_trip() {
    let mut buf = [0u8; 64];
    let emit = Ipv4Emit {
        src: [1, 1, 1, 1],
        dst: [2, 2, 2, 2],
        proto: 6,
        ttl: 64,
        ident: 99,
        dont_frag: false,
        more_frags: true,
        frag_offset: 24,
    };
    let hl = emit.emit(8, &mut buf);
    let (h, _) = parse(&buf[..hl + 8]).unwrap();
    assert!(h.more_frags && h.frag_offset == 24 && h.is_fragment());
}

#[test]
fn ipv4_rejects_malformed() {
    let mut buf = [0u8; 64];
    let emit = Ipv4Emit::datagram([1, 1, 1, 1], [2, 2, 2, 2], 6, 64, 0, false);
    let hl = emit.emit(4, &mut buf);
    let len = hl + 4;
    assert_eq!(parse(&buf[..10]), Err(WireError::Truncated));
    let mut bad = buf;
    bad[0] = 0x65; // version 6
    assert_eq!(parse(&bad[..len]), Err(WireError::BadVersion));
    let mut bad = buf;
    bad[0] = 0x44; // IHL 4 < 5
    assert_eq!(parse(&bad[..len]), Err(WireError::BadHeaderLen));
    let mut bad = buf;
    bad[8] ^= 0xff; // corrupt TTL -> checksum fails
    assert_eq!(parse(&bad[..len]), Err(WireError::BadChecksum));
    let mut bad = buf;
    bad[2] = 0;
    bad[3] = 19; // total_len < header_len (re-checksum to reach the check)
    write_u16(&mut bad, 10, 0);
    let mut c = Checksum::new();
    c.add_bytes(&bad[..20]);
    let cks = c.finish();
    write_u16(&mut bad, 10, cks);
    assert_eq!(parse(&bad[..len]), Err(WireError::BadLength));
}
