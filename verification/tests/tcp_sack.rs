//! SACK scoreboard.
use tcp_sans_io::tcp::sack::SackScoreboard;
use tcp_sans_io::tcp::seq::SeqNr;


fn sb(una: u32, nxt: u32, blocks: &[(u32, u32)]) -> SackScoreboard {
    let mut s = SackScoreboard::new();
    s.ingest(blocks, SeqNr(una), SeqNr(nxt));
    s
}

#[test]
fn ingest_validates_blocks() {
    let mut s = SackScoreboard::new();
    // Malformed, stale, and beyond-SND.NXT blocks are ignored.
    assert!(!s.ingest(&[(50, 40)], SeqNr(100), SeqNr(1000)));
    assert!(!s.ingest(&[(40, 90)], SeqNr(100), SeqNr(1000)));
    assert!(!s.ingest(&[(900, 1100)], SeqNr(100), SeqNr(1000)));
    assert_eq!(s.sacked_bytes(), 0);
    // Straddling SND.UNA is clamped.
    assert!(s.ingest(&[(90, 200)], SeqNr(100), SeqNr(1000)));
    assert_eq!(s.sacked_bytes(), 100);
}

#[test]
fn merge_coalesces() {
    let mut s = sb(0, 10000, &[(100, 200), (300, 400)]);
    assert_eq!(s.sacked_bytes(), 200);
    // Duplicate adds nothing new.
    assert!(!s.ingest(&[(100, 200)], SeqNr(0), SeqNr(10000)));
    // Bridge merges everything.
    assert!(s.ingest(&[(150, 350)], SeqNr(0), SeqNr(10000)));
    assert_eq!(s.sacked_bytes(), 300);
    assert_eq!(s.high_sacked(), Some(SeqNr(400)));
    assert!(s.is_sacked(SeqNr(100), 300));
    assert!(!s.is_sacked(SeqNr(99), 2));
}

#[test]
fn holes_for_retransmission() {
    let s = sb(100, 1000, &[(200, 300), (500, 600)]);
    // Hole 1: [100, 200).
    assert_eq!(s.next_hole(SeqNr(100)), Some((SeqNr(100), 100)));
    // From inside a SACKed range: next hole after it.
    assert_eq!(s.next_hole(SeqNr(250)), Some((SeqNr(300), 200)));
    // From the last hole's middle.
    assert_eq!(s.next_hole(SeqNr(400)), Some((SeqNr(400), 100)));
    // Nothing above high_sacked.
    assert_eq!(s.next_hole(SeqNr(600)), None);
}

#[test]
fn ack_advance_trims() {
    let mut s = sb(100, 1000, &[(200, 300), (500, 600)]);
    s.on_ack_advance(SeqNr(250));
    assert_eq!(s.sacked_bytes(), 150);
    s.on_ack_advance(SeqNr(600));
    assert_eq!(s.sacked_bytes(), 0);
    assert_eq!(s.high_sacked(), None);
}

#[test]
fn wraparound_ranges() {
    let una = u32::MAX - 100;
    let mut s = SackScoreboard::new();
    assert!(s.ingest(&[(u32::MAX - 50, 50)], SeqNr(una), SeqNr(una).add(500)));
    assert_eq!(s.sacked_bytes(), 101);
    assert_eq!(s.next_hole(SeqNr(una)), Some((SeqNr(una), 50)));
}
