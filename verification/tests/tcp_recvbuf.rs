//! Receive buffer.
use tcp_sans_io::config::MAX_OOO_RANGES;
use tcp_sans_io::tcp::recvbuf::{Inserted, RecvBuffer};
use tcp_sans_io::util::BoundedVec;


/// Small capacity keeps the tests legible; the logic is size-independent.
const CAP: usize = 256;

#[test]
fn in_order_flow() {
    let mut b: RecvBuffer<CAP> = RecvBuffer::new();
    assert_eq!(
        b.insert(0, b"hello"),
        Inserted {
            advance: 5,
            stored: true
        }
    );
    assert_eq!(b.readable(), 5);
    assert_eq!(b.window(), (CAP - 5) as u32);
    let mut out = [0u8; 8];
    assert_eq!(b.read(&mut out), 5);
    assert_eq!(&out[..5], b"hello");
    assert_eq!(b.window(), CAP as u32);
}

#[test]
fn out_of_order_merge_and_sack() {
    let mut b: RecvBuffer<CAP> = RecvBuffer::new();
    // Hole at [0,5); store [5,10) then [12,15).
    assert_eq!(
        b.insert(5, b"BBBBB"),
        Inserted {
            advance: 0,
            stored: true
        }
    );
    assert_eq!(
        b.insert(12, b"DDD"),
        Inserted {
            advance: 0,
            stored: true
        }
    );
    let mut blocks: BoundedVec<(u32, u32), 4> = BoundedVec::new();
    b.sack_ranges(&mut blocks);
    // Most recent first.
    assert_eq!(blocks.as_slice(), &[(12, 15), (5, 10)]);
    // Bridge [10,12): coalesces to [5,15).
    assert_eq!(
        b.insert(10, b"CC"),
        Inserted {
            advance: 0,
            stored: true
        }
    );
    b.sack_ranges(&mut blocks);
    assert_eq!(blocks.as_slice(), &[(5, 15)]);
    // Fill the head: everything becomes readable.
    assert_eq!(
        b.insert(0, b"AAAAA"),
        Inserted {
            advance: 15,
            stored: true
        }
    );
    assert_eq!(b.readable(), 15);
    let mut out = [0u8; 15];
    b.read(&mut out);
    assert_eq!(&out, b"AAAAABBBBBCCDDD");
}

#[test]
fn duplicate_and_overlap_are_idempotent() {
    let mut b: RecvBuffer<CAP> = RecvBuffer::new();
    b.insert(3, b"xyz");
    b.insert(3, b"xyz"); // exact duplicate
    b.insert(2, b"wxyzA"); // overlaps + extends both sides
    let mut blocks: BoundedVec<(u32, u32), 4> = BoundedVec::new();
    b.sack_ranges(&mut blocks);
    assert_eq!(blocks.as_slice(), &[(2, 7)]);
    b.insert(0, b"ab");
    assert_eq!(b.readable(), 7);
    let mut out = [0u8; 7];
    b.read(&mut out);
    assert_eq!(&out, b"abwxyzA");
}

#[test]
fn ooo_budget_exhaustion_evicts_furthest_not_head() {
    let mut b: RecvBuffer<CAP> = RecvBuffer::new();
    // MAX_OOO_RANGES disjoint ranges (each separated by a 1-byte hole).
    for i in 0..MAX_OOO_RANGES as u32 {
        assert!(b.insert(1 + i * 3, &[7, 7]).stored);
    }
    // One more disjoint range past all of them: it's the furthest, so it
    // is the one evicted (reported as not stored).
    let r = b.insert(1 + MAX_OOO_RANGES as u32 * 3, &[7, 7]);
    assert!(!r.stored);
    // A disjoint range *below* the existing ones evicts the old furthest
    // one instead - the new data nearer the head is kept.
    let mut b2: RecvBuffer<CAP> = RecvBuffer::new();
    for i in 0..MAX_OOO_RANGES as u32 {
        assert!(b2.insert(10 + i * 3, &[7, 7]).stored);
    }
    let r = b2.insert(2, &[9]);
    assert!(!r.stored, "an eviction happened");
    let mut blocks: BoundedVec<(u32, u32), MAX_OOO_RANGES> = BoundedVec::new();
    b2.sack_ranges(&mut blocks);
    assert!(
        blocks.iter().any(|&(s, _)| s == 2),
        "the near-head insert was kept"
    );
    // Coalescing inserts still work without eviction.
    assert!(b.insert(1, &[7, 7, 7]).stored);
}

/// With the out-of-order budget saturated by far-offset ranges, an exactly
/// in-order segment that does not reach the first range must still advance
/// `readable`.
#[test]
fn in_order_data_never_refused_when_ooo_budget_full() {
    let mut b: RecvBuffer<CAP> = RecvBuffer::new();
    // Fill the budget with 1-byte ranges near the top of the window,
    // leaving a large gap below them.
    for i in 0..MAX_OOO_RANGES as u32 {
        let off = CAP as u32 - 2 - i * 2;
        assert!(b.insert(off, &[0xEE]).stored);
    }
    // In-order data well below every stored range: must advance.
    let r = b.insert(0, b"hello");
    assert_eq!(
        r.advance, 5,
        "in-order data must advance RCV.NXT even at budget"
    );
    assert_eq!(b.readable(), 5);
    // And again, after the first advance freed nothing (ranges are still
    // far away): the head keeps moving.
    let r2 = b.insert(5, b"world");
    assert_eq!(r2.advance, 5);
}

#[test]
fn read_shifts_pending_ranges() {
    let mut b: RecvBuffer<CAP> = RecvBuffer::new();
    b.insert(0, b"abc");
    b.insert(5, b"zz");
    let mut out = [0u8; 2];
    b.read(&mut out); // ranges shift down by 2
    let mut blocks: BoundedVec<(u32, u32), 4> = BoundedVec::new();
    b.sack_ranges(&mut blocks);
    // Relative to RCV.NXT (readable edge = 1 now): hole [1,3), data [3,5).
    assert_eq!(blocks.as_slice(), &[(2, 4)]);
}

#[test]
fn ring_wraparound_preserves_bytes() {
    let mut b: RecvBuffer<CAP> = RecvBuffer::new();
    let big = std::vec![1u8; CAP - 4];
    assert_eq!(b.insert(0, &big).advance as usize, big.len());
    let mut sink = std::vec![0u8; big.len()];
    b.read(&mut sink);
    // Ring start is now near the end; this insert wraps.
    let pattern: std::vec::Vec<u8> = (0..32).collect();
    assert_eq!(b.insert(0, &pattern).advance, 32);
    let mut out = [0u8; 32];
    b.read(&mut out);
    assert_eq!(&out[..], &pattern[..]);
}

#[test]
fn cut_forgets_what_lies_beyond() {
    let mut b: RecvBuffer<CAP> = RecvBuffer::new();
    b.insert(5, b"BBBBB");
    b.insert(12, b"DDD");
    b.cut_at(7);
    let mut blocks: BoundedVec<(u32, u32), 4> = BoundedVec::new();
    b.sack_ranges(&mut blocks);
    assert_eq!(blocks.as_slice(), &[(5, 7)]);
    assert_eq!(
        b.insert(0, b"AAAAA"),
        Inserted {
            advance: 7,
            stored: true
        }
    );
    let mut out = [0u8; 16];
    assert_eq!(b.read(&mut out), 7);
    assert_eq!(&out[..7], b"AAAAABB");
}
