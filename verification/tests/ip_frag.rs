//! Egress fragmentation.
use tcp_sans_io::ip::frag::{fragment_v4, FragError};
use tcp_sans_io::wire::ipv4::{self, Ipv4Emit};


fn base(df: bool) -> Ipv4Emit {
    Ipv4Emit::datagram([10, 0, 0, 1], [10, 0, 0, 2], 6, 64, 42, df)
}

#[test]
fn fits_unfragmented() {
    let payload = [9u8; 100];
    let mut it = fragment_v4(base(true), &payload, 1500).unwrap();
    let mut frags = Vec::new();
    while let Some(f) = it.next() {
        frags.push(f);
    }
    assert_eq!(frags.len(), 1);
    assert!(!frags[0].0.more_frags && frags[0].0.frag_offset == 0);
    assert_eq!(frags[0].1.len(), 100);
}

#[test]
fn df_blocks_fragmentation() {
    let payload = [9u8; 2000];
    assert!(matches!(fragment_v4(base(true), &payload, 1500), Err(FragError::DontFragment)));
}

#[test]
fn splits_align_and_reassemble() {
    // Fragment, emit each on the wire, parse back, and reassemble.
    let mut payload = [0u8; 2000];
    for (i, b) in payload.iter_mut().enumerate() {
        *b = i as u8;
    }
    let mut out = [0u8; 2000];
    let mut seen = 0usize;
    let mut count = 0;
    let mut it = fragment_v4(base(false), &payload, 576).unwrap();
    while let Some((h, part)) = it.next() {
        // Non-final fragments must be 8-byte aligned and fit the MTU.
        if h.more_frags {
            assert_eq!(part.len() % 8, 0);
        }
        assert!(ipv4::HEADER_LEN + part.len() <= 576);
        let mut wire = [0u8; 576];
        let hl = h.emit(part.len(), &mut wire);
        wire[hl..hl + part.len()].copy_from_slice(part);
        let (ph, ppay) = ipv4::parse(&wire[..hl + part.len()]).unwrap();
        assert_eq!(ph.ident, 42);
        out[ph.frag_offset as usize..ph.frag_offset as usize + ppay.len()]
            .copy_from_slice(ppay);
        seen += ppay.len();
        count += 1;
    }
    assert!(count > 1);
    assert_eq!(seen, 2000);
    assert_eq!(out, payload);
}

#[test]
fn fragment_of_a_fragment_keeps_its_place() {
    let payload = [7u8; 1200];
    let mut middle = base(false);
    middle.frag_offset = 1600;
    middle.more_frags = true;
    let mut it = fragment_v4(middle, &payload, 576).unwrap();
    let mut next = 1600usize;
    while let Some((h, part)) = it.next() {
        assert_eq!(h.frag_offset as usize, next);
        // More follows even behind the last piece.
        assert!(h.more_frags);
        next += part.len();
    }
    assert_eq!(next, 2800);
}
