//! What the application reads over the life of a connection.
use super::input::{acceptable, Segment};
use super::model::{lemma_inv_scalars, MAX_CAPACITY};
use super::receiving::lemma_timers_updated_receiver;
use super::runs::{
    accepted_life, fins_in, hears, in_order, lemma_acked_receiver, lemma_born_in_order,
    lemma_closed_quiet, lemma_contents_past_fin, lemma_fired_aside, lemma_planned_aside,
    lemma_run_in_order, lemma_segment_leaves_syn_sent, lemma_sync_reports, lemma_text_quiet,
    lemma_unacceptable_stays, not_heard, opened_life, peer_speaks, speaks, ConnInput, Life,
};
use super::{open_establishes_invariant, ConnEvent, ConnModel, ConnParams, FxModel, PeerSyn, Tcb};
use crate::config::Config;
use crate::tcp::seq::{seq_at, SeqNr};
use crate::time::Instant;
use crate::types::{CloseReason, SocketAddr};
use vstd::prelude::*;

verus! {

impl Life {
    /// Whether the connection was ever synchronized while all of this happened:
    /// past SYN-SENT, and not closed yet. It may be closed by now.
    pub open spec fn synchronized(self, inputs: Seq<ConnInput>, cap: int) -> bool
        decreases inputs.len(),
    {
        let m = self.run(inputs, cap).m;
        ||| !(m.tcb.state is SynSent || m.tcb.state is Closed)
        ||| inputs.len() > 0 && self.synchronized(inputs.drop_last(), cap)
    }
}

/// What was read and can still be read reaches from the peer's SYN up to
/// RCV.NXT, or up to the FIN in front of it, once that was reported.
pub open spec fn reaches_rcv_nxt(h: Life, irs: SeqNr) -> bool {
    &&& h.m.tcb.irs == irs
    &&& h.m.tcb.rcv_nxt == seq_at(irs, 1 + h.read.len() + h.m.rcv.readable + h.fins)
}

/// What holds of a connection at any moment of its life, if the peer starts at
/// `irs` and its stream is `s`: what the application read, call after call, is a
/// prefix of the stream; once the connection was synchronized, with what it can
/// still read it reaches up to RCV.NXT (or up to the FIN in front of it, once
/// that was consumed), also when the connection has closed since; and the end of
/// the stream was reported at most once, exactly if the FIN was consumed.
pub open spec fn reads_a_prefix(h: Life, synchronized: bool, irs: SeqNr, s: Seq<u8>) -> bool {
    let n = h.read.len();
    &&& n <= s.len()
    &&& h.read == s.take(n as int)
    &&& 0 <= h.fins <= 1
    &&& synchronized ==> reaches_rcv_nxt(h, irs)
    &&& !(h.m.tcb.state is SynSent || h.m.tcb.state is Closed) ==> {
        &&& synchronized
        &&& h.fins == 1 <==> !h.m.tcb.awaits_fin()
    }
}

/// The receiving side stays as it was if the connection closes.
spec fn closes_in_place(m: ConnModel, n: ConnModel) -> bool {
    n.tcb.state is Closed ==> {
        &&& n.rcv.readable == m.rcv.readable
        &&& n.tcb.irs == m.tcb.irs
        &&& n.tcb.rcv_nxt == m.tcb.rcv_nxt
    }
}

/// The contents of a segment do not close a connection that awaits the peer's
/// FIN.
proof fn lemma_contents_do_not_close(
    a: ConnModel,
    now: Instant,
    seg: Segment,
    una: SeqNr,
    wnd: u32,
    fx: FxModel,
)
    requires
        a.tcb.awaits_fin(),
    ensures
        !(a.contents_arrived(now, seg, una, wnd, fx).0.tcb.state is Closed),
{
    let w = a.with(a.tcb.window_updated(seg, una));
    assert(w.tcb.state == a.tcb.state) by {
        reveal(Tcb::window_updated);
    }
    lemma_text_quiet(w, now, seg.seq, seg.payload, fx);
    let (x, g) = w.text_arrived(now, seg.seq, seg.payload, fx);
    let n = x.fin_recorded(seg, wnd);
    assert(n.tcb.state == x.tcb.state) by {
        reveal(Tcb::fin_noted);
        reveal(ConnModel::cut_at_fin);
    }
    reveal(ConnModel::fin_arrived);
    reveal(Tcb::fin_taken);
    reveal(Tcb::past_fin);
}

proof fn lemma_ack_arrived_closes(m: ConnModel, now: Instant, seg: Segment, cap: int, fx: FxModel)
    requires
        !(m.tcb.state is Closed),
        !(m.tcb.state is SynSent),
    ensures
        closes_in_place(m, m.ack_arrived(now, seg, cap, fx).0),
{
    let (t, learned) = m.sacked(seg.opts.sack_blocks);
    let (a, f) = t.ack_processed(now, seg, learned, cap, fx);
    lemma_acked_receiver(m, now, seg, cap, fx);
    if a.tcb.awaits_fin() {
        lemma_contents_do_not_close(a, now, seg, m.tcb.snd_una, m.open_window(), f);
    } else {
        lemma_contents_past_fin(a, now, seg, m.tcb.snd_una, m.open_window(), f);
    }
    reveal(ConnModel::ack_arrived);
}

proof fn lemma_sync_closes(m: ConnModel, now: Instant, seg: Segment, cap: int, fx: FxModel)
    requires
        !(m.tcb.state is Closed),
        !(m.tcb.state is SynSent),
    ensures
        closes_in_place(m, m.sync_arrived(now, seg, cap, fx).0),
{
    if !acceptable(m.tcb.rcv_nxt, m.open_window(), seg.seq, seg.len()) {
        lemma_unacceptable_stays(m, now, seg, cap, fx);
    } else if seg.flags.rst() {
        reveal(ConnModel::reset_by_peer);
    } else {
        lemma_ack_arrived_closes(m, now, seg, cap, fx);
        lemma_ack_arrived_closes(
            m.established(),
            now,
            seg,
            cap,
            fx.with_event(ConnEvent::Connected),
        );
    }
    reveal(ConnModel::sync_arrived);
}

/// Closing changes nothing of what was received, and a connection past
/// SYN-SENT does not get back there.
spec fn ends_in_place(h: Life, x: Life) -> bool {
    &&& !(x.m.tcb.state is SynSent)
    &&& x.m.tcb.state is Closed ==> {
        &&& x.m.tcb.irs == h.m.tcb.irs
        &&& x.m.tcb.rcv_nxt == h.m.tcb.rcv_nxt
        &&& x.read.len() + x.m.rcv.readable == h.read.len() + h.m.rcv.readable
        &&& x.fins == h.fins
    }
}

proof fn lemma_segment_ends(h: Life, now: Instant, seg: Segment, cap: int)
    requires
        !(h.m.tcb.state is SynSent),
    ensures
        ends_in_place(h, h.next(ConnInput::Segment(now, seg), cap)),
{
    reveal(Life::next);
    let m = h.m;
    let fx = FxModel::empty();
    assert(fins_in(fx.events) == 0);
    if m.tcb.state is Closed {
        lemma_timers_updated_receiver(m, now);
    } else {
        lemma_sync_reports(m, now, seg, cap);
        lemma_sync_closes(m, now, seg, cap, fx);
        lemma_segment_leaves_syn_sent(m, now, seg, cap, fx);
        lemma_timers_updated_receiver(m.sync_arrived(now, seg, cap, fx).0, now);
    }
}

/// A step that leaves the receiving side alone ends in place.
proof fn lemma_aside_ends(h: Life, x: Life)
    requires
        !(h.m.tcb.state is SynSent),
        not_heard(h.m, x.m),
        x.read == h.read,
        x.fins == h.fins,
    ensures
        ends_in_place(h, x),
{
}

proof fn lemma_read_ends(h: Life, max: nat, cap: int)
    requires
        h.m.inv(),
        !(h.m.tcb.state is SynSent),
    ensures
        ends_in_place(h, h.next(ConnInput::Read(max), cap)),
{
    reveal(Life::next);
    let m = h.m;
    let n = m.readable_into(max as int);
    assert(m.rcv.wf()) by {
        lemma_inv_scalars(m);
    }
    assert(m.rcv.pending().take(n).len() == n);
    assert(m.taken(n).tcb.state == m.tcb.state && m.taken(n).rcv.readable == m.rcv.readable - n);
}

proof fn lemma_call_ends(h: Life, input: ConnInput, cap: int)
    requires
        !(h.m.tcb.state is SynSent),
        input is Close || input is Abort || input is Unreachable,
    ensures
        ends_in_place(h, h.next(input, cap)),
{
    reveal(Life::next);
    let fx = FxModel::empty();
    assert(fins_in(fx.events) == 0);
    lemma_closed_quiet(h.m, CloseReason::Normal, fx);
    lemma_closed_quiet(h.m, CloseReason::Aborted, fx);
    lemma_closed_quiet(h.m, CloseReason::Unreachable, fx);
}

proof fn lemma_quiet_step_ends(h: Life, input: ConnInput, cap: int)
    requires
        h.m.inv(),
        !(h.m.tcb.state is SynSent),
        input is Timer || input is Plan || input is Settle,
    ensures
        ends_in_place(h, h.next(input, cap)),
{
    let m = h.m;
    assert(fins_in(FxModel::empty().events) == 0);
    match input {
        ConnInput::Timer(now, kind) => {
            lemma_fired_aside(m, now, kind);
        },
        ConnInput::Plan(now) => {
            lemma_planned_aside(m, now);
        },
        ConnInput::Settle(now) => {
            lemma_timers_updated_receiver(m, now);
        },
        _ => {},
    }
    reveal(Life::next);
    lemma_aside_ends(h, h.next(input, cap));
}

proof fn lemma_plain_step_ends(h: Life, input: ConnInput, cap: int)
    requires
        !(h.m.tcb.state is SynSent),
        input is Write || input is PathMss || input is PathAge || input is Reported || input
            is Challenge,
    ensures
        ends_in_place(h, h.next(input, cap)),
{
    reveal(Life::next);
    lemma_aside_ends(h, h.next(input, cap));
}

proof fn lemma_step_ends(h: Life, input: ConnInput, cap: int)
    requires
        h.m.inv(),
        !(h.m.tcb.state is SynSent),
    ensures
        ends_in_place(h, h.next(input, cap)),
{
    match input {
        ConnInput::Segment(now, seg) => {
            lemma_segment_ends(h, now, seg, cap);
        },
        ConnInput::Read(max) => {
            lemma_read_ends(h, max, cap);
        },
        _ => {
            if input is Timer || input is Plan || input is Settle {
                lemma_quiet_step_ends(h, input, cap);
            } else if input is Close || input is Abort || input is Unreachable {
                lemma_call_ends(h, input, cap);
            } else {
                lemma_plain_step_ends(h, input, cap);
            }
        },
    }
}

proof fn lemma_run_reaches(
    h: Life,
    inputs: Seq<ConnInput>,
    irs: SeqNr,
    s: Seq<u8>,
    cap: int,
)
    requires
        in_order(h, irs, s, cap),
        cap <= MAX_CAPACITY,
        s.len() < 0x8000_0000,
        peer_speaks(inputs, irs, s),
    ensures
        h.synchronized(inputs, cap) ==> {
            &&& reaches_rcv_nxt(h.run(inputs, cap), irs)
            &&& !(h.run(inputs, cap).m.tcb.state is SynSent)
        },
    decreases inputs.len(),
{
    lemma_run_in_order(h, inputs, irs, s, cap);
    let x = h.run(inputs, cap);
    if x.m.tcb.state is SynSent || x.m.tcb.state is Closed {
        if inputs.len() > 0 && h.synchronized(inputs.drop_last(), cap) {
            let init = inputs.drop_last();
            assert forall|i: int| 0 <= i < init.len() implies ((#[trigger] init[i])
                matches ConnInput::Segment(now, seg) ==> speaks(seg, irs, s)) by {
                assert(init[i] == inputs[i]);
            }
            lemma_run_reaches(h, init, irs, s, cap);
            lemma_run_in_order(h, init, irs, s, cap);
            lemma_step_ends(h.run(init, cap), inputs.last(), cap);
        }
    } else {
        reveal(hears);
    }
}

/// What the application reads of a connection that we opened is a prefix of
/// what the peer wrote, whatever happens to the connection and however the
/// peer's segments are lost, repeated and reordered.
pub proof fn opened_connections_read_a_prefix(
    cfg: Config,
    params: ConnParams,
    local: SocketAddr,
    remote: SocketAddr,
    iss: SeqNr,
    rcv_cap: nat,
    inputs: Seq<ConnInput>,
    irs: SeqNr,
    s: Seq<u8>,
    cap: int,
)
    requires
        rcv_cap <= MAX_CAPACITY,
        0 <= cap <= MAX_CAPACITY,
        params.offer_wscale matches Some(w) ==> w <= 14,
        s.len() < 0x8000_0000,
        peer_speaks(inputs, irs, s),
    ensures
        reads_a_prefix(
            opened_life(cfg, params, local, remote, iss, rcv_cap).run(inputs, cap),
            opened_life(cfg, params, local, remote, iss, rcv_cap).synchronized(inputs, cap),
            irs,
            s,
        ),
{
    let h = opened_life(cfg, params, local, remote, iss, rcv_cap);
    let syn = PeerSyn { seq: iss, window: 0, mss: None, wscale: None, sack_permitted: false };
    open_establishes_invariant(cfg, params, local, remote, iss, syn, rcv_cap);
    lemma_born_in_order(h, irs, s, cap);
    lemma_run_in_order(h, inputs, irs, s, cap);
    lemma_run_reaches(h, inputs, irs, s, cap);
    reveal(hears);
}

/// The same of a connection that a SYN of the peer opened.
pub proof fn accepted_connections_read_a_prefix(
    cfg: Config,
    params: ConnParams,
    local: SocketAddr,
    remote: SocketAddr,
    iss: SeqNr,
    syn: PeerSyn,
    rcv_cap: nat,
    inputs: Seq<ConnInput>,
    s: Seq<u8>,
    cap: int,
)
    requires
        rcv_cap <= MAX_CAPACITY,
        0 <= cap <= MAX_CAPACITY,
        params.offer_wscale matches Some(w) ==> w <= 14,
        syn.wscale matches Some(w) ==> w <= 14,
        s.len() < 0x8000_0000,
        peer_speaks(inputs, syn.seq, s),
    ensures
        reads_a_prefix(
            accepted_life(cfg, params, local, remote, iss, syn, rcv_cap).run(inputs, cap),
            true,
            syn.seq,
            s,
        ),
{
    let h = accepted_life(cfg, params, local, remote, iss, syn, rcv_cap);
    open_establishes_invariant(cfg, params, local, remote, iss, syn, rcv_cap);
    lemma_born_in_order(h, syn.seq, s, cap);
    lemma_run_in_order(h, inputs, syn.seq, s, cap);
    lemma_run_reaches(h, inputs, syn.seq, s, cap);
    lemma_accepted_is_synchronized(h, inputs, cap);
    reveal(hears);
}

proof fn lemma_accepted_is_synchronized(h: Life, inputs: Seq<ConnInput>, cap: int)
    requires
        !(h.m.tcb.state is SynSent || h.m.tcb.state is Closed),
    ensures
        h.synchronized(inputs, cap),
    decreases inputs.len(),
{
    if inputs.len() > 0 {
        lemma_accepted_is_synchronized(h, inputs.drop_last(), cap);
    }
}

} // verus!
