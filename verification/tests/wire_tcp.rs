//! TCP segments.
use tcp_sans_io::wire::checksum::Checksum;
use tcp_sans_io::wire::tcp::{parse, TcpEmit, TcpFlags, TcpOptionsEmit};
use tcp_sans_io::wire::{proto, write_u16, WireError};
use tcp_sans_io::IpAddr;


const A: IpAddr = IpAddr::V4([10, 0, 0, 1]);
const B: IpAddr = IpAddr::V4([10, 0, 0, 2]);

fn emit_full() -> ([u8; 128], usize) {
    let mut opts = TcpOptionsEmit {
        mss: Some(1460),
        window_scale: Some(7),
        sack_permitted: true,
        ..Default::default()
    };
    opts.sack_blocks.push((100, 200)).unwrap();
    opts.sack_blocks.push((300, 400)).unwrap();
    let seg = TcpEmit {
        src_port: 1234,
        dst_port: 80,
        seq: 0x01020304,
        ack: 0x0a0b0c0d,
        flags: TcpFlags(TcpFlags::SYN).union(TcpFlags(TcpFlags::ACK)),
        window: 0xfff0,
        options: opts,
    };
    let mut buf = [0u8; 128];
    let len = seg.emit(&A, &B, (b"hel", b"lo"), &mut buf);
    (buf, len)
}

#[test]
fn tcp_emit_parse_round_trip() {
    let (buf, len) = emit_full();
    let (h, o, payload) = parse(&buf[..len], &A, &B).unwrap();
    assert_eq!(h.src_port, 1234);
    assert_eq!(h.dst_port, 80);
    assert_eq!(h.seq, 0x01020304);
    assert_eq!(h.ack, 0x0a0b0c0d);
    assert!(h.flags.syn() && h.flags.ack() && !h.flags.rst());
    assert_eq!(h.window, 0xfff0);
    assert_eq!(o.mss, Some(1460));
    assert_eq!(o.window_scale, Some(7));
    assert!(o.sack_permitted);
    assert_eq!(o.sack_blocks.as_slice(), &[(100, 200), (300, 400)]);
    assert_eq!(payload, b"hello");
}

#[test]
fn checksum_detects_corruption() {
    let (mut buf, len) = emit_full();
    buf[len - 1] ^= 1;
    assert_eq!(
        parse(&buf[..len], &A, &B).unwrap_err(),
        WireError::BadChecksum
    );
    // Also wrong pseudo-header (different src ip).
    let (buf, len) = emit_full();
    let c = IpAddr::V4([10, 0, 0, 3]);
    assert_eq!(
        parse(&buf[..len], &c, &B).unwrap_err(),
        WireError::BadChecksum
    );
}

#[test]
fn v6_pseudo_header_round_trip() {
    let s = IpAddr::v6([0xfc00, 0, 0, 0, 0, 0, 0, 1]);
    let d = IpAddr::v6([0xfc00, 0, 0, 0, 0, 0, 0, 2]);
    let seg = TcpEmit {
        src_port: 1,
        dst_port: 2,
        seq: 9,
        ack: 0,
        flags: TcpFlags(TcpFlags::SYN),
        window: 100,
        options: Default::default(),
    };
    let mut buf = [0u8; 64];
    let len = seg.emit(&s, &d, (&[], &[]), &mut buf);
    let (h, _, payload) = parse(&buf[..len], &s, &d).unwrap();
    assert_eq!(h.seq, 9);
    assert!(payload.is_empty());
}

#[test]
fn rejects_bad_options() {
    // A segment whose options claim a length running past the header.
    let seg = TcpEmit {
        src_port: 1,
        dst_port: 2,
        seq: 0,
        ack: 0,
        flags: TcpFlags(TcpFlags::SYN),
        window: 0,
        options: TcpOptionsEmit {
            mss: Some(1460),
            ..Default::default()
        },
    };
    let mut buf = [0u8; 64];
    let len = seg.emit(&A, &B, (&[], &[]), &mut buf);
    buf[21] = 40; // MSS option length 40 > remaining space
    // Fix checksum so we reach option parsing.
    write_u16(&mut buf, 16, 0);
    let mut c = Checksum::new();
    c.add_pseudo(&A, &B, proto::TCP, len as u32);
    c.add_bytes(&buf[..len]);
    let cks = c.finish();
    write_u16(&mut buf, 16, cks);
    assert_eq!(
        parse(&buf[..len], &A, &B).unwrap_err(),
        WireError::BadOption
    );
}

#[test]
fn unknown_options_skipped() {
    let seg = TcpEmit {
        src_port: 1,
        dst_port: 2,
        seq: 7,
        ack: 0,
        flags: TcpFlags(TcpFlags::ACK),
        window: 10,
        options: Default::default(),
    };
    let mut buf = [0u8; 64];
    let base = seg.emit(&A, &B, (&[], &[]), &mut buf);
    // Splice in a 4-byte unknown option (kind 254) by hand.
    let mut raw = [0u8; 64];
    raw[..base].copy_from_slice(&buf[..base]);
    raw.copy_within(20..base, 24);
    raw[20] = 254;
    raw[21] = 4;
    raw[22] = 0xde;
    raw[23] = 0xad;
    let len = base + 4;
    raw[12] = (((20 + 4) / 4) as u8) << 4;
    write_u16(&mut raw, 16, 0);
    let mut c = Checksum::new();
    c.add_pseudo(&A, &B, proto::TCP, len as u32);
    c.add_bytes(&raw[..len]);
    let cks = c.finish();
    write_u16(&mut raw, 16, cks);
    let (h, o, _) = parse(&raw[..len], &A, &B).unwrap();
    assert_eq!(h.seq, 7);
    assert!(o.mss.is_none() && !o.sack_permitted);
}
