//! Send buffer.
use tcp_sans_io::tcp::sendbuf::SendBuffer;


const CAP: usize = 64;

fn collect<const N: usize>(buf: &SendBuffer<N>, off: usize, len: usize) -> Vec<u8> {
    let (a, b) = buf.read(off, len);
    let mut v = a.to_vec();
    v.extend_from_slice(b);
    v
}

#[test]
fn write_ack_read_wraps() {
    let mut b: SendBuffer<CAP> = SendBuffer::new();
    // Fill almost everything, ack most, write again to force wrap.
    let chunk: Vec<u8> = (0..CAP - 3).map(|i| i as u8).collect();
    assert_eq!(b.write(&chunk), chunk.len());
    b.ack(CAP - 8);
    assert_eq!(b.len(), 5);
    let tail: Vec<u8> = (0..16).map(|i| 0xA0 + i as u8).collect();
    assert_eq!(b.write(&tail), 16);
    assert_eq!(b.len(), 21);
    let got = collect(&b, 5, 16);
    assert_eq!(got, tail);
    // The 5 pre-wrap bytes survive intact.
    let head = collect(&b, 0, 5);
    assert_eq!(head, chunk[chunk.len() - 5..]);
}

#[test]
fn write_caps_at_capacity() {
    let mut b: SendBuffer<CAP> = SendBuffer::new();
    let big = std::vec![7u8; CAP + 100];
    assert_eq!(b.write(&big), CAP);
    assert_eq!(b.space(), 0);
    assert_eq!(b.write(&[1]), 0);
    b.ack(1);
    assert_eq!(b.write(&[9]), 1);
    assert_eq!(collect(&b, CAP - 1, 1), &[9]);
}
