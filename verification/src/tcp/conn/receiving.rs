//! The receiving side of a connection and the peer's byte stream.
use super::input::{
    acceptable, lemma_ack_processed_inv, lemma_fin_noted, lemma_sacked_takes_ack, lemma_takes_ack,
    lemma_text_arrived_inv, lemma_window_bounded, lemma_window_updated_inv, Segment,
};
use super::model::{fin_bounds_text, lemma_inv_scalars, MAX_CAPACITY};
use super::{ConnEvent, ConnModel, FxModel, Tcb};
use crate::tcp::cc::lesser;
use crate::tcp::recvbuf::{
    consume_keeps_invariant, cut_keeps_invariant, insert_holds_the_union, insert_keeps_invariant,
    insert_writes_only_its_offsets,
};
use crate::tcp::seq::{lemma_seq_at, seq_at, SeqNr};
use crate::time::Instant;
use vstd::prelude::*;

verus! {

impl ConnModel {
    /// Whether everything received so far is part of the stream `s`, whose
    /// first byte travels right behind the peer's SYN, if the application has
    /// read `read` bytes of it: each byte held is the byte of the stream at
    /// its place, and RCV.NXT is behind the last byte of the contiguous part
    /// (and behind the FIN, once that was consumed). Before the peer's SYN
    /// nothing is read.
    pub open spec fn receives(self, s: Seq<u8>, read: int) -> bool {
        &&& 0 <= read
        &&& read + self.rcv.readable <= s.len()
        &&& forall|i: int| #[trigger]
            self.rcv.holds(i) ==> read + i < s.len() && self.rcv.window[i] == s[read + i]
        &&& self.tcb.state is SynSent ==> read == 0
        &&& !(self.tcb.state is Closed || self.tcb.state is SynSent) ==> self.tcb.rcv_nxt == seq_at(
            self.tcb.irs,
            1 + read + self.rcv.readable + if self.tcb.awaits_fin() {
                0int
            } else {
                1
            },
        )
    }

    /// The receiving side is that of `m`, unless the connection closed.
    pub open spec fn same_receiver(self, m: ConnModel) -> bool {
        &&& self.rcv == m.rcv
        &&& self.tcb.irs == m.tcb.irs
        &&& self.tcb.rcv_nxt == m.tcb.rcv_nxt
        &&& self.tcb.state is Closed || {
            &&& self.tcb.awaits_fin() == m.tcb.awaits_fin()
            &&& self.tcb.state is SynSent == m.tcb.state is SynSent
            &&& !(m.tcb.state is Closed)
        }
    }
}

/// What the application reads is the stream, in order and without gaps: `n`
/// bytes read are the next `n` bytes of it.
pub proof fn reads_deliver_the_stream(m: ConnModel, s: Seq<u8>, read: int, n: int)
    requires
        m.inv(),
        m.receives(s, read),
        0 <= n <= m.rcv.readable,
    ensures
        m.rcv.pending().take(n) == s.subrange(read, read + n),
        m.taken(n).receives(s, read + n),
{
    assert(m.rcv.wf()) by {
        lemma_inv_scalars(m);
    }
    assert(m.tcb.state is SynSent ==> m.rcv.readable == 0) by {
        reveal(ConnModel::inv);
    }
    let c = m.rcv.consume(n);
    consume_keeps_invariant(m.rcv, n);
    assert forall|i: int| 0 <= i < n implies m.rcv.pending().take(n)[i] == s.subrange(
        read,
        read + n,
    )[i] by {
        assert(m.rcv.holds(i));
    }
    assert(m.rcv.pending().take(n) =~= s.subrange(read, read + n));
    assert(m.taken(n).rcv == c);
    assert forall|i: int| #[trigger] c.holds(i) implies read + n + i < s.len() && c.window[i]
        == s[read + n + i] by {
        if 0 <= i < c.readable {
            assert(m.rcv.holds(i + n));
        } else {
            let k = choose|k: int|
                0 <= k < c.ranges.len() && (#[trigger] c.ranges[k]).start <= i < c.ranges[k].end;
            assert(m.rcv.ranges[k].start <= i + n < m.rcv.ranges[k].end);
            assert(m.rcv.holds(i + n));
        }
    }
}

proof fn lemma_insert_agrees(
    m: ConnModel,
    off: u32,
    data: Seq<u8>,
    s: Seq<u8>,
    read: int,
    pos: int,
    i: int,
)
    requires
        m.rcv.wf(),
        m.receives(s, read),
        off <= m.rcv.window.len(),
        pos == read + off,
        0 <= pos,
        pos + data.len() <= s.len(),
        data == s.subrange(pos, pos + data.len()),
        m.rcv.insert(off, data).0.holds(i),
    ensures
        read + i < s.len(),
        m.rcv.insert(off, data).0.window[i] == s[read + i],
{
    insert_keeps_invariant(m.rcv, off, data);
    insert_holds_the_union(m.rcv, off, data, i);
    insert_writes_only_its_offsets(m.rcv, off, data, i);
    let len = m.rcv.fitting(off, data.len() as int);
    assert(0 <= i < m.rcv.window.len());
    if off >= m.rcv.readable && off <= i < off + len {
        assert(data[i - off] == s[read + i]);
    } else if off <= i < off + len {
        assert(m.rcv.insert(off, data).0 == m.rcv);
        assert(m.rcv.holds(i));
    } else {
        assert(m.rcv.holds(i));
    }
}

proof fn lemma_text_stored_stream(
    m: ConnModel,
    now: Instant,
    off: u32,
    data: Seq<u8>,
    cut: bool,
    fx: FxModel,
    s: Seq<u8>,
    read: int,
)
    requires
        m.inv(),
        m.receives(s, read),
        m.tcb.awaits_fin(),
        off <= m.open_window(),
        read + m.rcv.readable + off + data.len() <= s.len(),
        data == s.subrange(
            read + m.rcv.readable + off,
            read + m.rcv.readable + off + data.len(),
        ),
    ensures
        m.text_stored(now, off, data, cut, fx).0.receives(s, read),
        m.text_stored(now, off, data, cut, fx).0.tcb.awaits_fin(),
        m.text_stored(now, off, data, cut, fx).0.tcb.irs == m.tcb.irs,
{
    assert(m.rcv.wf() && m.rcv.window.len() <= MAX_CAPACITY) by {
        lemma_inv_scalars(m);
    }
    let at = (m.rcv.readable + off) as u32;
    insert_keeps_invariant(m.rcv, at, data);
    let (r, ins) = m.rcv.insert(at, data);
    assert forall|i: int| #[trigger] r.holds(i) implies read + i < s.len() && r.window[i]
        == s[read + i] by {
        lemma_insert_agrees(m, at, data, s, read, read + at, i);
    }
    if r.readable > 0 {
        assert(r.holds(r.readable - 1));
    }
    lemma_seq_at(
        m.tcb.irs,
        1 + read + m.rcv.readable,
        1 + read + m.rcv.readable + ins.advance,
    );
    reveal(ConnModel::text_stored);
    reveal(Tcb::text_accepted);
}

/// Whether the text of a segment, if it has any, is part of the stream `s`, at
/// place `pos`, less than half the sequence space away from what the receiver
/// expects.
pub open spec fn carries(m: ConnModel, seg: Segment, s: Seq<u8>, read: int, pos: int) -> bool {
    seg.payload.len() > 0 ==> {
        &&& 0 <= pos
        &&& pos + seg.payload.len() <= s.len()
        &&& seg.payload == s.subrange(pos, pos + seg.payload.len())
        &&& seg.seq == seq_at(m.tcb.irs, 1 + pos)
        &&& -0x8000_0000 < pos - (read + m.rcv.readable) < 0x8000_0000
    }
}

proof fn lemma_text_arrived_stream(
    m: ConnModel,
    now: Instant,
    seg: Segment,
    fx: FxModel,
    s: Seq<u8>,
    read: int,
    pos: int,
)
    requires
        m.inv(),
        m.receives(s, read),
        carries(m, seg, s, read, pos),
    ensures
        m.text_arrived(now, seg.seq, seg.payload, fx).0.receives(s, read),
        m.text_arrived(now, seg.seq, seg.payload, fx).0.tcb.irs == m.tcb.irs,
{
    assert(m.rcv.wf() && m.rcv.window.len() <= MAX_CAPACITY) by {
        lemma_inv_scalars(m);
    }
    reveal(ConnModel::text_arrived);
    if seg.payload.len() > 0 && (m.tcb.state is Established || m.tcb.state is FinWait1
        || m.tcb.state is FinWait2) {
        let edge = read + m.rcv.readable;
        lemma_seq_at(m.tcb.irs, 1 + pos, 1 + edge);
        lemma_seq_at(m.tcb.irs, 1 + edge, 1 + pos);
        let old = pos < edge;
        assert(old == seg.seq.lt(m.tcb.rcv_nxt));
        let skip = if old {
            edge - pos
        } else {
            0
        };
        let off = if old {
            0
        } else {
            pos - edge
        };
        let len = lesser(seg.payload.len() - skip, m.text_room(off));
        if len > 0 {
            let data = seg.payload.subrange(skip, skip + len);
            assert(data =~= s.subrange(edge + off, edge + off + len));
            lemma_text_stored_stream(
                m,
                now,
                off as u32,
                data,
                len < seg.payload.len() - skip,
                fx,
                s,
                read,
            );
        }
    }
}

pub(crate) proof fn lemma_newly_acked_receiver(
    m: ConnModel,
    now: Instant,
    ack: SeqNr,
    cap: int,
    fx: FxModel,
)
    requires
        !(m.tcb.state is Closed),
    ensures
        m.newly_acked(now, ack, cap, fx).0.same_receiver(m),
{
    reveal(ConnModel::newly_acked);
    let a = m.ack_absorbed(now, ack);
    assert(a.same_receiver(m) && a.tcb.state == m.tcb.state) by {
        reveal(ConnModel::ack_absorbed);
        reveal(ConnModel::ack_advanced);
        reveal(Tcb::ack_timed);
        reveal(Tcb::recovery_acked);
    }
    let (u, f) = a.unblocked(cap, fx);
    assert(u.same_receiver(m) && u.tcb.state == m.tcb.state) by {
        reveal(ConnModel::unblocked);
    }
    assert(u.fin_acknowledged(now, f).0.same_receiver(u)) by {
        reveal(ConnModel::fin_acknowledged);
    }
}

proof fn lemma_ack_processed_receiver(
    m: ConnModel,
    now: Instant,
    seg: Segment,
    learned: bool,
    cap: int,
    fx: FxModel,
)
    requires
        !(m.tcb.state is Closed),
    ensures
        m.ack_processed(now, seg, learned, cap, fx).0.same_receiver(m),
{
    reveal(ConnModel::ack_processed);
    lemma_newly_acked_receiver(m, now, seg.ack, cap, fx);
    assert(m.with(m.tcb.dupacked()).same_receiver(m)) by {
        reveal(Tcb::dupacked);
    }
}

#[verifier::rlimit(30)]
proof fn lemma_unacceptable_receiver(
    m: ConnModel,
    now: Instant,
    seg: Segment,
    cap: int,
    fx: FxModel,
)
    requires
        !(m.tcb.state is Closed),
    ensures
        m.unacceptable_arrived(now, seg, cap, fx).0.same_receiver(m),
{
    reveal(ConnModel::unacceptable_arrived);
    lemma_newly_acked_receiver(m, now, seg.ack, cap, fx);
}

/// With the same receiving side, as much of the stream was received.
pub(crate) proof fn lemma_same_receiver_receives(a: ConnModel, b: ConnModel, s: Seq<u8>, read: int)
    requires
        a.receives(s, read),
        b.same_receiver(a),
    ensures
        b.receives(s, read),
{
}

/// Forgetting what lies beyond a FIN leaves what was received in its place.
proof fn lemma_fin_recorded_stream(m: ConnModel, seg: Segment, wnd: u32, s: Seq<u8>, read: int)
    requires
        m.inv(),
        wnd <= MAX_CAPACITY,
        m.receives(s, read),
    ensures
        m.fin_recorded(seg, wnd).receives(s, read),
        m.fin_recorded(seg, wnd).tcb.irs == m.tcb.irs,
        m.fin_recorded(seg, wnd).tcb.state == m.tcb.state,
{
    assert(m.rcv.wf() && m.rcv.window.len() <= MAX_CAPACITY) by {
        lemma_inv_scalars(m);
    }
    let n = m.fin_recorded(seg, wnd);
    lemma_fin_noted(m, seg, wnd);
    reveal(ConnModel::cut_at_fin);
    if let Some(f) = m.tcb.fin_noted(seg, wnd).peer_fin {
        let limit = (m.rcv.readable + m.tcb.rcv_nxt.distance_to(f)) as u32;
        cut_keeps_invariant(m.rcv, limit);
        assert forall|i: int| #[trigger] n.rcv.holds(i) implies read + i < s.len()
            && n.rcv.window[i] == s[read + i] by {
            assert(m.rcv.holds(i));
        }
    }
}

proof fn lemma_contents_stream(
    m: ConnModel,
    now: Instant,
    seg: Segment,
    old_una: SeqNr,
    wnd: u32,
    fx: FxModel,
    s: Seq<u8>,
    read: int,
    pos: int,
)
    requires
        m.inv(),
        !(m.tcb.state is SynReceived),
        !(m.tcb.state is SynSent),
        wnd <= MAX_CAPACITY,
        m.receives(s, read),
        carries(m, seg, s, read, pos),
    ensures
        m.contents_arrived(now, seg, old_una, wnd, fx).0.receives(s, read),
        m.contents_arrived(now, seg, old_una, wnd, fx).0.tcb.irs == m.tcb.irs,
{
    let w = m.with(m.tcb.window_updated(seg, old_una));
    lemma_window_updated_inv(m, seg, old_una);
    assert(w.receives(s, read) && carries(w, seg, s, read, pos) && w.tcb.irs == m.tcb.irs) by {
        reveal(Tcb::window_updated);
    }
    lemma_text_arrived_stream(w, now, seg, fx, s, read, pos);
    let (x, f) = w.text_arrived(now, seg.seq, seg.payload, fx);
    let n = x.fin_recorded(seg, wnd);
    lemma_text_arrived_inv(w, now, seg.seq, seg.payload, fx);
    lemma_fin_recorded_stream(x, seg, wnd, s, read);
    lemma_seq_at(n.tcb.irs, 1 + read + n.rcv.readable, 2 + read + n.rcv.readable);
    reveal(ConnModel::fin_arrived);
    reveal(Tcb::fin_taken);
    reveal(Tcb::past_fin);
}

pub(crate) proof fn lemma_timers_updated_receiver(m: ConnModel, now: Instant)
    ensures
        m.timers_updated(now).rcv == m.rcv,
        m.timers_updated(now).tcb.irs == m.tcb.irs,
        m.timers_updated(now).tcb.rcv_nxt == m.tcb.rcv_nxt,
        m.timers_updated(now).tcb.state == m.tcb.state,
{
    reveal(Tcb::rexmit_settled);
    reveal(Tcb::persist_settled);
}

proof fn lemma_ack_arrived_stream(
    m: ConnModel,
    now: Instant,
    seg: Segment,
    cap: int,
    fx: FxModel,
    s: Seq<u8>,
    read: int,
    pos: int,
)
    requires
        m.takes_ack(seg.ack),
        !(m.tcb.state is Closed),
        m.receives(s, read),
        carries(m, seg, s, read, pos),
    ensures
        m.ack_arrived(now, seg, cap, fx).0.receives(s, read),
        m.ack_arrived(now, seg, cap, fx).0.tcb.irs == m.tcb.irs,
{
    lemma_window_bounded(m, seg.ack);
    reveal(ConnModel::ack_arrived);
    if m.tcb.ack_in_range(seg.ack) {
        lemma_sacked_takes_ack(m, seg.ack, seg.opts.sack_blocks);
        let (t, learned) = m.sacked(seg.opts.sack_blocks);
        lemma_ack_processed_inv(t, now, seg, learned, cap, fx);
        lemma_ack_processed_receiver(t, now, seg, learned, cap, fx);
        let (a, f) = t.ack_processed(now, seg, learned, cap, fx);
        lemma_same_receiver_receives(t, a, s, read);
        lemma_contents_stream(
            a,
            now,
            seg,
            m.tcb.snd_una,
            m.open_window(),
            f,
            s,
            read,
            pos,
        );
    }
}

/// Whatever segment arrives, in whatever order and however often, as long as
/// its text is part of the peer's stream, everything received is part of that
/// stream and in its place. (With [`reads_deliver_the_stream`]: the
/// application reads a prefix of the stream.)
pub proof fn segments_of_a_stream_agree(
    m: ConnModel,
    now: Instant,
    seg: Segment,
    cap: int,
    fx: FxModel,
    s: Seq<u8>,
    read: int,
    pos: int,
)
    requires
        m.inv(),
        !(m.tcb.state is SynSent),
        m.receives(s, read),
        carries(m, seg, s, read, pos),
    ensures
        m.arrived(now, seg, cap, fx).0.receives(s, read),
        m.arrived(now, seg, cap, fx).0.tcb.irs == m.tcb.irs,
{
    if m.tcb.state is Closed {
        lemma_timers_updated_receiver(m, now);
    } else {
        let (n, f) = m.sync_arrived(now, seg, cap, fx);
        lemma_timers_updated_receiver(n, now);
        reveal(ConnModel::sync_arrived);
        if seg.flags.syn() && !seg.flags.rst() {
        } else if !acceptable(m.tcb.rcv_nxt, m.open_window(), seg.seq, seg.len()) {
            lemma_unacceptable_receiver(m, now, seg, cap, fx);
        } else if seg.flags.rst() {
            reveal(ConnModel::reset_by_peer);
        } else if seg.flags.ack() {
            lemma_takes_ack(m, seg.ack);
            if !(m.tcb.state is SynReceived) {
                lemma_ack_arrived_stream(m, now, seg, cap, fx, s, read, pos);
            } else if m.handshake_acked(seg.ack) {
                lemma_ack_arrived_stream(
                    m.established(),
                    now,
                    seg,
                    cap,
                    fx.with_event(ConnEvent::Connected),
                    s,
                    read,
                    pos,
                );
            }
        }
    }
}

/// The peer's FIN is consumed at most once: behind it, no segment moves RCV.NXT
/// or the receive buffer any more, and none leads back before the FIN.
pub proof fn fin_is_consumed_once(
    m: ConnModel,
    now: Instant,
    seg: Segment,
    cap: int,
    fx: FxModel,
)
    requires
        m.inv(),
        !(m.tcb.state is SynSent),
        !m.tcb.awaits_fin(),
    ensures
        m.arrived(now, seg, cap, fx).0.tcb.rcv_nxt == m.tcb.rcv_nxt,
        m.arrived(now, seg, cap, fx).0.rcv == m.rcv,
        !m.arrived(now, seg, cap, fx).0.tcb.awaits_fin(),
{
    if m.tcb.state is Closed {
        lemma_timers_updated_receiver(m, now);
    } else {
        let (n, f) = m.sync_arrived(now, seg, cap, fx);
        lemma_timers_updated_receiver(n, now);
        reveal(ConnModel::sync_arrived);
        lemma_unacceptable_receiver(m, now, seg, cap, fx);
        assert(m.reset_by_peer(fx).0.same_receiver(m)) by {
            reveal(ConnModel::reset_by_peer);
        }
        lemma_takes_ack(m, seg.ack);
        if m.tcb.ack_in_range(seg.ack) {
            lemma_ack_arrived_past_fin(m, now, seg, cap, fx);
        } else {
            reveal(ConnModel::ack_arrived);
        }
    }
}

/// Nothing is held beyond a noted FIN, so there is nothing to cut off.
proof fn lemma_cut_at_fin_twice(m: ConnModel)
    requires
        m.inv(),
    ensures
        m.cut_at_fin() == m,
{
    assert(m.rcv.wf() && m.rcv.window.len() <= MAX_CAPACITY && fin_bounds_text(
        m.rcv,
        m.tcb.rcv_nxt,
        m.tcb.peer_fin,
    )) by {
        reveal(ConnModel::inv);
    }
    reveal(ConnModel::cut_at_fin);
    reveal(fin_bounds_text);
    if let Some(f) = m.tcb.peer_fin {
        cut_keeps_invariant(m.rcv, (m.rcv.readable + m.tcb.rcv_nxt.distance_to(f)) as u32);
    }
}

proof fn lemma_ack_arrived_past_fin(
    m: ConnModel,
    now: Instant,
    seg: Segment,
    cap: int,
    fx: FxModel,
)
    requires
        m.takes_ack(seg.ack),
        !(m.tcb.state is Closed),
        !m.tcb.awaits_fin(),
        m.tcb.ack_in_range(seg.ack),
    ensures
        m.ack_arrived(now, seg, cap, fx).0.same_receiver(m),
{
    reveal(ConnModel::ack_arrived);
    let (t, learned) = m.sacked(seg.opts.sack_blocks);
    lemma_ack_processed_receiver(t, now, seg, learned, cap, fx);
    let (a, f) = t.ack_processed(now, seg, learned, cap, fx);
    let w = a.with(a.tcb.window_updated(seg, m.tcb.snd_una));
    assert(w.same_receiver(m) && !w.tcb.awaits_fin()) by {
        reveal(Tcb::window_updated);
    }
    let (x, g) = w.text_arrived(now, seg.seq, seg.payload, f);
    assert(x == w) by {
        reveal(ConnModel::text_arrived);
    }
    let wnd = m.open_window();
    assert(x.fin_recorded(seg, wnd).same_receiver(m)) by {
        lemma_window_bounded(m, seg.ack);
        lemma_sacked_takes_ack(m, seg.ack, seg.opts.sack_blocks);
        lemma_ack_processed_inv(t, now, seg, learned, cap, fx);
        lemma_window_updated_inv(a, seg, m.tcb.snd_una);
        assert(x.tcb.fin_noted(seg, wnd) == x.tcb) by {
            reveal(Tcb::fin_noted);
        }
        lemma_cut_at_fin_twice(x);
    }
    reveal(ConnModel::fin_arrived);
}

} // verus!
