//! Wire formats at their edges: every error, and what is put in comes back.
use tcp_sans_io::wire::checksum::{over, Checksum};
use tcp_sans_io::wire::tcp::{TcpEmit, TcpFlags, TcpOptionsEmit, HEADER_LEN};
use tcp_sans_io::wire::{icmp, ipv4, ipv6, proto, tcp, write_u16, WireError};
use tcp_sans_io::IpAddr;

const A: IpAddr = IpAddr::V4([10, 0, 0, 1]);
const B: IpAddr = IpAddr::V4([10, 0, 0, 2]);

/// An IPv4 header with its checksum put right.
fn mended(mut h: [u8; 20]) -> [u8; 20] {
    write_u16(&mut h, 10, 0);
    let sum = over(&h);
    write_u16(&mut h, 10, sum);
    h
}

fn v4_header(payload: usize) -> [u8; 20] {
    let mut h = [0u8; 20];
    ipv4::Ipv4Emit::datagram([10, 0, 0, 1], [10, 0, 0, 2], proto::TCP, 64, 7, true)
        .emit(payload, &mut h);
    h
}

#[test]
fn ipv4_errors() {
    let good = v4_header(0);
    assert!(ipv4::parse(&good).is_ok());
    assert_eq!(ipv4::parse(&good[..19]), Err(WireError::Truncated));
    let mut h = good;
    h[0] = 0x65;
    assert_eq!(ipv4::parse(&mended(h)), Err(WireError::BadVersion));
    let mut h = good;
    h[0] = 0x44;
    assert_eq!(ipv4::parse(&mended(h)), Err(WireError::BadHeaderLen));
    let mut h = good;
    h[0] = 0x46;
    assert_eq!(ipv4::parse(&mended(h)), Err(WireError::BadHeaderLen));
    let mut h = good;
    h[8] ^= 1;
    assert_eq!(ipv4::parse(&h), Err(WireError::BadChecksum));
    let mut h = good;
    write_u16(&mut h, 2, 19);
    assert_eq!(ipv4::parse(&mended(h)), Err(WireError::BadLength));
    // A datagram that claims more than is there is cut short ...
    let h = v4_header(1);
    assert_eq!(ipv4::parse(&h), Err(WireError::Truncated));
    // ... which a quotation may be.
    assert_eq!(ipv4::parse_quote(&h).unwrap().1.len(), 0);
}

#[test]
fn ipv4_padding_is_dropped() {
    let mut frame = [0xEEu8; 40];
    frame[..20].copy_from_slice(&v4_header(3));
    let (h, payload) = ipv4::parse(&frame).unwrap();
    assert_eq!((h.total_len, h.dont_frag, h.is_fragment()), (23, true, false));
    assert_eq!(payload, &[0xEE; 3]);
}

#[test]
fn ipv6_errors() {
    let (s, d) = ([1u8; 16], [2u8; 16]);
    let mut buf = [0u8; 120];
    ipv6::emit(&s, &d, ipv6::NEXT_ROUTING, 64, 16, &mut buf);
    buf[40] = proto::TCP;
    // No segments left: the header is skipped.
    let (h, payload) = ipv6::parse(&buf[..56]).unwrap();
    assert_eq!((h.proto, payload.len()), (proto::TCP, 8));
    // Segments left: refused.
    buf[43] = 1;
    assert_eq!(ipv6::parse(&buf[..56]), Err(WireError::BadExtensionHeader));
    // A chain of more headers than are looked at.
    let mut buf = [0u8; 120];
    ipv6::emit(&s, &d, ipv6::NEXT_HOP_BY_HOP, 64, 80, &mut buf);
    assert_eq!(ipv6::parse(&buf[..120]), Err(WireError::BadExtensionHeader));
    // The payload length reaches past the frame.
    ipv6::emit(&s, &d, proto::TCP, 64, 81, &mut buf);
    assert_eq!(ipv6::parse(&buf[..120]), Err(WireError::Truncated));
}

fn segment(options: &[u8]) -> Vec<u8> {
    let mut seg = vec![0u8; HEADER_LEN + options.len()];
    write_u16(&mut seg, 0, 1);
    write_u16(&mut seg, 2, 2);
    seg[12] = ((HEADER_LEN + options.len()) / 4 * 16) as u8;
    seg[13] = TcpFlags::ACK;
    seg[HEADER_LEN..].copy_from_slice(options);
    let mut c = Checksum::new();
    c.add_pseudo(&A, &B, proto::TCP, seg.len() as u32);
    c.add_bytes(&seg);
    let sum = c.finish();
    write_u16(&mut seg, 16, sum);
    seg
}

fn fault(options: &[u8]) -> Option<WireError> {
    tcp::parse(&segment(options), &A, &B).err()
}

#[test]
fn tcp_errors() {
    let good = segment(&[]);
    assert!(tcp::parse(&good, &A, &B).is_ok());
    assert_eq!(tcp::parse(&good[..19], &A, &B).err(), Some(WireError::Truncated));
    let mut h = good.clone();
    h[12] = 0x40;
    assert_eq!(tcp::parse(&h, &A, &B).err(), Some(WireError::BadHeaderLen));
    let mut h = good.clone();
    h[12] = 0x60;
    assert_eq!(tcp::parse(&h, &A, &B).err(), Some(WireError::BadHeaderLen));
    let mut h = good.clone();
    h[4] = 1;
    assert_eq!(tcp::parse(&h, &A, &B).err(), Some(WireError::BadChecksum));
    // Another address in the pseudo-header.
    let other = IpAddr::v4(10, 0, 0, 3);
    assert_eq!(tcp::parse(&good, &A, &other).err(), Some(WireError::BadChecksum));
}

#[test]
fn tcp_option_errors() {
    // Cut off, shorter than itself, longer than the header.
    assert_eq!(fault(&[1, 1, 1, 2]), Some(WireError::BadOption));
    assert_eq!(fault(&[2, 1, 0, 0]), Some(WireError::BadOption));
    assert_eq!(fault(&[2, 5, 0, 0]), Some(WireError::BadOption));
    // A known kind with another length than its own.
    assert_eq!(fault(&[2, 3, 5, 0]), Some(WireError::BadOption));
    assert_eq!(fault(&[3, 4, 5, 0]), Some(WireError::BadOption));
    assert_eq!(fault(&[4, 3, 5, 0]), Some(WireError::BadOption));
    assert_eq!(fault(&[5, 4, 0, 0]), Some(WireError::BadOption));
    // Unknown kinds are skipped, and nothing counts behind the end.
    assert_eq!(fault(&[99, 4, 1, 2]), None);
    assert_eq!(fault(&[0, 2, 1, 9]), None);
}

#[test]
fn large_window_scale_counts_as_fourteen() {
    let seg = segment(&[3, 3, 200, 1]);
    let (_, opts, _) = tcp::parse(&seg, &A, &B).unwrap();
    assert_eq!(opts.window_scale, Some(14));
}

#[test]
fn segment_with_every_option_round_trips_on_both_families() {
    let a6 = IpAddr::v6([0xfc00, 0, 0, 0, 0, 0, 0, 1]);
    let b6 = IpAddr::v6([0xfc00, 0, 0, 0, 0, 0, 0, 2]);
    for (src, dst) in [(A, B), (a6, b6)] {
        let mut options = TcpOptionsEmit {
            mss: Some(1460),
            window_scale: Some(7),
            sack_permitted: true,
            ..Default::default()
        };
        options.sack_blocks.push((5, 9)).unwrap();
        let e = TcpEmit {
            src_port: 1234,
            dst_port: 80,
            seq: 0xFFFF_FFFF,
            ack: 0x8000_0000,
            flags: TcpFlags(TcpFlags::SYN | TcpFlags::ACK),
            window: 65535,
            options,
        };
        let mut buf = [0u8; 80];
        let len = e.emit(&src, &dst, (b"ab", b"cde"), &mut buf);
        assert_eq!(len, HEADER_LEN + options.encoded_len() + 5);
        let (h, o, text) = tcp::parse(&buf[..len], &src, &dst).unwrap();
        assert_eq!((h.src_port, h.dst_port, h.seq, h.ack), (1234, 80, 0xFFFF_FFFF, 0x8000_0000));
        assert!(h.flags.syn() && h.flags.ack() && !h.flags.fin());
        assert_eq!((o.mss, o.window_scale, o.sack_permitted), (Some(1460), Some(7), true));
        assert_eq!(o.sack_blocks.as_slice(), &[(5, 9)]);
        assert_eq!(text, b"abcde");
    }
}

#[test]
fn icmp_errors() {
    assert_eq!(icmp::parse_v4(&[0; 7]).err(), Some(WireError::Truncated));
    assert_eq!(icmp::parse_v6(&[0; 7], &[0; 16], &[0; 16]).err(), Some(WireError::Truncated));
    assert_eq!(icmp::parse_v4(&[8, 0, 1, 1, 0, 0, 0, 0]).err(), Some(WireError::BadChecksum));
}

#[test]
fn checksum_of_odd_pieces() {
    // Pieces of even length, and one odd tail, add up as the whole does.
    let data: Vec<u8> = (0..=100).collect();
    let mut c = Checksum::new();
    c.add_bytes(&data[..40]);
    c.add_bytes(&data[40..]);
    assert_eq!(c.finish(), over(&data));
    // RFC 1071 section 3.
    assert_eq!(over(&[0x00, 0x01, 0xf2, 0x03, 0xf4, 0xf5, 0xf6, 0xf7]), 0x220d);
    // A message that carries its own checksum sums to zero.
    let mut m = [0x45u8, 0, 0, 0x1c, 0, 0];
    let sum = over(&m);
    write_u16(&mut m, 4, sum);
    assert_eq!(over(&m), 0);
}
