//! The life of a connection: any number of segments, timers, calls, path
//! signals and transmissions, and what comes of them.
use super::identity::plans_keep_text;
use super::input::{acceptable, segments_keep_invariant, Segment};
use super::model::{lemma_inv_scalars, lemma_timers_updated_inv, MAX_CAPACITY};
use super::output::plans_keep_invariant;
use super::progress::{keeps_waiting, lemma_chosen_waiting, one_if};
use super::receiving::{
    carries, lemma_newly_acked_receiver, lemma_same_receiver_receives,
    lemma_timers_updated_receiver, reads_deliver_the_stream, segments_of_a_stream_agree,
};
use super::sending::{
    acked_after, lemma_timers_updated_sender, segments_carry_the_stream,
    segments_keep_the_unacknowledged_stream, writes_extend_the_stream,
};
use super::{
    calls_keep_invariant, lemma_soft_change_inv, open_establishes_invariant,
    path_signals_keep_invariant, timers_keep_invariant, ConnEvent, ConnModel, ConnParams, FxModel,
    PeerSyn, Tcb,
};
use crate::config::Config;
use crate::tcp::seq::{lemma_seq_at, seq_at, SeqNr};
use crate::tcp::State;
use crate::time::Instant;
use crate::types::{CloseReason, SocketAddr, TimerKind};
use vstd::prelude::*;

verus! {

/// What can happen to a connection.
pub enum ConnInput {
    /// A segment arrives.
    Segment(Instant, Segment),
    /// A timer fires.
    Timer(Instant, TimerKind),
    /// The next segment is planned.
    Plan(Instant),
    /// The timers are recomputed.
    Settle(Instant),
    /// The application writes.
    Write(Seq<u8>),
    /// The application reads at most so many bytes.
    Read(nat),
    /// The application closes.
    Close,
    /// The application aborts.
    Abort,
    /// The path MSS is reported.
    PathMss(Instant, u16),
    /// The path MSS ages.
    PathAge(Instant),
    /// The path fails.
    Unreachable,
    /// Whether the application knows of the connection is noted.
    Reported(bool),
    /// A challenge ACK is granted.
    Challenge,
}

/// What happened so far, and the connection after it.
pub struct Life {
    /// The connection.
    pub m: ConnModel,
    /// What the application wrote, as far as it was accepted.
    pub wrote: Seq<u8>,
    /// How much of it was acknowledged.
    pub acked: int,
    /// What the application read.
    pub read: Seq<u8>,
    /// How often the end of the peer's stream was reported.
    pub fins: int,
}

/// How many of the events report the end of the peer's stream.
pub open spec fn fins_in(evs: Seq<ConnEvent>) -> int
    decreases evs.len(),
{
    if evs.len() == 0 {
        0
    } else {
        fins_in(evs.drop_last()) + one_if(evs.last() is PeerFin)
    }
}

impl Life {
    /// A connection to which nothing happened yet.
    pub open spec fn born(m: ConnModel) -> Life {
        Life { m, wrote: Seq::empty(), acked: 0, read: Seq::empty(), fins: 0 }
    }

    /// With the connection after a step, and the events of the step counted.
    pub open spec fn after(self, r: (ConnModel, FxModel)) -> Life {
        Life { m: r.0, fins: self.fins + fins_in(r.1.events), ..self }
    }

    /// After one more thing happened, to a connection with a send buffer of
    /// `cap` bytes.
    #[verifier::opaque]
    pub open spec fn next(self, input: ConnInput, cap: int) -> Life {
        let fx = FxModel::empty();
        let m = self.m;
        match input {
            ConnInput::Segment(now, seg) => Life {
                acked: acked_after(m, m.arrived(now, seg, cap, fx).0, self.acked),
                ..self.after(m.arrived(now, seg, cap, fx))
            },
            ConnInput::Timer(now, kind) => self.after(m.fired(now, kind, fx)),
            ConnInput::Plan(now) => Life { m: m.next_planned(now).0, ..self },
            ConnInput::Settle(now) => Life { m: m.timers_updated(now), ..self },
            ConnInput::Write(data) => {
                let (n, r) = m.written(data, cap);
                Life {
                    m: n,
                    wrote: match r {
                        Ok(k) => self.wrote + data.take(k as int),
                        Err(_) => self.wrote,
                    },
                    ..self
                }
            },
            ConnInput::Read(max) => {
                let n = m.readable_into(max as int);
                Life { m: m.taken(n), read: self.read + m.rcv.pending().take(n), ..self }
            },
            ConnInput::Close => {
                let (n, f, r) = m.shut(fx);
                self.after((n, f))
            },
            ConnInput::Abort => self.after(m.closed(CloseReason::Aborted, fx)),
            ConnInput::PathMss(now, mss) => Life { m: m.path_shrunk(now, mss), ..self },
            ConnInput::PathAge(now) => Life { m: m.path_aged(now), ..self },
            ConnInput::Unreachable => self.after(m.unreachable(fx)),
            ConnInput::Reported(reported) => Life {
                m: m.with(Tcb { reported, ..m.tcb }),
                ..self
            },
            ConnInput::Challenge => Life { m: m.with(m.tcb.ack_now()), ..self },
        }
    }

    /// After all of this happened.
    pub open spec fn run(self, inputs: Seq<ConnInput>, cap: int) -> Life
        decreases inputs.len(),
    {
        if inputs.len() == 0 {
            self
        } else {
            self.run(inputs.drop_last(), cap).next(inputs.last(), cap)
        }
    }
}

/// Whether a segment is one of a peer that starts at `irs` and whose stream is
/// `s`: its text, if it has any, is the part of the stream that belongs at its
/// sequence number. (What travels on a SYN is ignored.)
pub open spec fn speaks(seg: Segment, irs: SeqNr, s: Seq<u8>) -> bool {
    let pos = irs.add(1).distance_to(seg.seq);
    &&& seg.legal()
    &&& seg.flags.syn() ==> seg.seq == irs
    &&& !seg.flags.syn() && seg.payload.len() > 0 ==> {
        &&& pos + seg.payload.len() <= s.len()
        &&& seg.payload == s.subrange(pos, pos + seg.payload.len())
    }
}

/// Whether every segment that arrives is one of that peer; they may be lost,
/// repeated, overlapping and in any order.
pub open spec fn peer_speaks(inputs: Seq<ConnInput>, irs: SeqNr, s: Seq<u8>) -> bool {
    forall|i: int|
        0 <= i < inputs.len() ==> ((#[trigger] inputs[i]) matches ConnInput::Segment(now, seg)
            ==> speaks(seg, irs, s))
}

/// What was heard of the peer: the application read a prefix of the stream, all
/// that is held is part of it and in its place, and the end of the stream was
/// reported exactly if the FIN was consumed.
#[verifier::opaque]
pub open spec fn hears(m: ConnModel, read: Seq<u8>, fins: int, irs: SeqNr, s: Seq<u8>) -> bool {
    &&& read.len() <= s.len()
    &&& read == s.take(read.len() as int)
    &&& m.receives(s, read.len() as int)
    &&& !(m.tcb.state is SynSent || m.tcb.state is Closed) ==> {
        &&& m.tcb.irs == irs
        &&& fins == one_if(!m.tcb.awaits_fin())
    }
    &&& m.tcb.state is SynSent ==> fins == 0
    &&& 0 <= fins <= 1
}

/// What is said to the peer: the rest of what the application wrote is in the
/// send buffer.
#[verifier::opaque]
pub open spec fn says(m: ConnModel, wrote: Seq<u8>, acked: int, cap: int) -> bool {
    &&& m.snd.len() <= cap
    &&& m.sends(wrote, acked)
}

/// What is true at every moment.
pub open spec fn in_order(h: Life, irs: SeqNr, s: Seq<u8>, cap: int) -> bool {
    &&& h.m.inv()
    &&& hears(h.m, h.read, h.fins, irs, s)
    &&& says(h.m, h.wrote, h.acked, cap)
}

proof fn lemma_event(f: FxModel, ev: ConnEvent)
    ensures
        !(ev is PeerFin) ==> fins_in(f.with_event(ev).events) == fins_in(f.events),
        ev is PeerFin && f.events.len() < 4 ==> fins_in(f.with_event(ev).events) == fins_in(
            f.events,
        ) + 1,
        f.with_event(ev).events.len() <= f.events.len() + 1,
{
    assert(f.events.push(ev).drop_last() =~= f.events);
}

/// No end of stream is reported, and at most one event unless the connection
/// closed.
pub open spec fn quiet(f: FxModel, n: ConnModel, g: FxModel) -> bool {
    &&& fins_in(g.events) == fins_in(f.events)
    &&& g.events.len() <= f.events.len() + 1 || n.tcb.state is Closed
}

pub(crate) proof fn lemma_closed_quiet(m: ConnModel, reason: CloseReason, f: FxModel)
    ensures
        quiet(f, m.closed(reason, f).0, m.closed(reason, f).1),
{
    lemma_event(f, ConnEvent::Closed(reason));
}

proof fn lemma_newly_acked_quiet(m: ConnModel, now: Instant, ack: SeqNr, cap: int, fx: FxModel)
    ensures
        ({
            let (n, g) = m.newly_acked(now, ack, cap, fx);
            quiet(fx, n, g)
        }),
{
    reveal(ConnModel::newly_acked);
    let a = m.ack_absorbed(now, ack);
    let (u, f) = a.unblocked(cap, fx);
    assert(quiet(fx, u, f)) by {
        reveal(ConnModel::unblocked);
        lemma_event(fx, ConnEvent::Writable);
    }
    lemma_closed_quiet(u, CloseReason::Normal, f);
    reveal(ConnModel::fin_acknowledged);
}

pub(crate) proof fn lemma_text_quiet(m: ConnModel, now: Instant, seq: SeqNr, payload: Seq<u8>, fx: FxModel)
    ensures
        ({
            let (n, g) = m.text_arrived(now, seq, payload, fx);
            &&& quiet(fx, m, g)
            &&& n.tcb.state == m.tcb.state
            &&& m.tcb.state is Closed ==> g == fx
        }),
{
    assert forall|off: u32, data: Seq<u8>, cut: bool|
        ({
            let (n, g) = #[trigger] m.text_stored(now, off, data, cut, fx);
            &&& quiet(fx, m, g)
            &&& n.tcb.state == m.tcb.state
        }) by {
        lemma_text_stored_quiet(m, now, off, data, cut, fx);
    }
    reveal(ConnModel::text_arrived);
}

proof fn lemma_text_stored_quiet(
    m: ConnModel,
    now: Instant,
    off: u32,
    data: Seq<u8>,
    cut: bool,
    fx: FxModel,
)
    ensures
        ({
            let (n, g) = m.text_stored(now, off, data, cut, fx);
            &&& quiet(fx, m, g)
            &&& n.tcb.state == m.tcb.state
        }),
{
    let ins = m.rcv.insert((m.rcv.readable + off) as u32, data).1;
    assert(m.tcb.text_accepted(now, ins.advance, cut).state == m.tcb.state) by {
        reveal(Tcb::text_accepted);
    }
    lemma_event(fx, ConnEvent::Readable);
    reveal(ConnModel::text_stored);
}

/// The end of the peer's stream is reported exactly when its FIN is consumed.
pub open spec fn reports_fin(m: ConnModel, n: ConnModel, f: FxModel, g: FxModel) -> bool {
    &&& fins_in(g.events) == fins_in(f.events) + one_if(
        m.tcb.awaits_fin() && !n.tcb.awaits_fin() && !(n.tcb.state is Closed),
    )
    &&& !m.tcb.awaits_fin() && !(m.tcb.state is SynSent) ==> !n.tcb.awaits_fin()
}

proof fn lemma_fin_arrived_reports(m: ConnModel, now: Instant, fx: FxModel)
    requires
        fx.events.len() < 4 || m.tcb.state is Closed,
    ensures
        reports_fin(m, m.fin_arrived(now, fx).0, fx, m.fin_arrived(now, fx).1),
        m.tcb.state is Closed ==> m.fin_arrived(now, fx) == (m, fx),
{
    lemma_event(fx, ConnEvent::PeerFin);
    reveal(ConnModel::fin_arrived);
    reveal(Tcb::fin_taken);
    reveal(Tcb::past_fin);
}

proof fn lemma_contents_report(
    a: ConnModel,
    now: Instant,
    seg: Segment,
    una: SeqNr,
    wnd: u32,
    fx: FxModel,
)
    requires
        fx.events.len() <= 2 || a.tcb.state is Closed,
    ensures
        ({
            let (n, g) = a.contents_arrived(now, seg, una, wnd, fx);
            reports_fin(a, n, fx, g)
        }),
{
    let w = a.with(a.tcb.window_updated(seg, una));
    assert(w.tcb.state == a.tcb.state) by {
        reveal(Tcb::window_updated);
    }
    lemma_text_quiet(w, now, seg.seq, seg.payload, fx);
    let (x, g) = w.text_arrived(now, seg.seq, seg.payload, fx);
    let n = x.fin_recorded(seg, wnd);
    assert(n.tcb.state == x.tcb.state) by {
        reveal(Tcb::fin_noted);
        reveal(ConnModel::cut_at_fin);
    }
    lemma_fin_arrived_reports(n, now, g);
}

proof fn lemma_ack_arrived_reports(
    m: ConnModel,
    now: Instant,
    seg: Segment,
    cap: int,
    fx: FxModel,
)
    requires
        fx.events.len() <= 1,
        !(m.tcb.state is Closed),
        !(m.tcb.state is SynSent),
    ensures
        reports_fin(m, m.ack_arrived(now, seg, cap, fx).0, fx, m.ack_arrived(now, seg, cap, fx).1),
{
    let (t, learned) = m.sacked(seg.opts.sack_blocks);
    let (a, f) = t.ack_processed(now, seg, learned, cap, fx);
    assert(quiet(fx, a, f)) by {
        lemma_newly_acked_quiet(t, now, seg.ack, cap, fx);
        reveal(ConnModel::ack_processed);
    }
    lemma_acked_receiver(m, now, seg, cap, fx);
    lemma_contents_report(a, now, seg, m.tcb.snd_una, m.open_window(), f);
    if a.tcb.state is Closed {
        lemma_contents_past_fin(a, now, seg, m.tcb.snd_una, m.open_window(), f);
    }
    reveal(ConnModel::ack_arrived);
}

proof fn lemma_unacceptable_reports(
    m: ConnModel,
    now: Instant,
    seg: Segment,
    cap: int,
    fx: FxModel,
)
    requires
        !(m.tcb.state is Closed),
    ensures
        reports_fin(
            m,
            m.unacceptable_arrived(now, seg, cap, fx).0,
            fx,
            m.unacceptable_arrived(now, seg, cap, fx).1,
        ),
{
    lemma_newly_acked_quiet(m, now, seg.ack, cap, fx);
    lemma_newly_acked_receiver(m, now, seg.ack, cap, fx);
    reveal(ConnModel::unacceptable_arrived);
}

pub(crate) proof fn lemma_sync_reports(m: ConnModel, now: Instant, seg: Segment, cap: int)
    requires
        !(m.tcb.state is Closed),
        !(m.tcb.state is SynSent),
    ensures
        reports_fin(
            m,
            m.sync_arrived(now, seg, cap, FxModel::empty()).0,
            FxModel::empty(),
            m.sync_arrived(now, seg, cap, FxModel::empty()).1,
        ),
{
    let fx = FxModel::empty();
    reveal(ConnModel::sync_arrived);
    lemma_unacceptable_reports(m, now, seg, cap, fx);
    lemma_closed_quiet(m, CloseReason::Reset, fx);
    lemma_closed_quiet(m, CloseReason::Refused, fx);
    lemma_closed_quiet(m, CloseReason::Normal, fx);
    reveal(ConnModel::reset_by_peer);
    lemma_ack_arrived_reports(m, now, seg, cap, fx);
    lemma_event(fx, ConnEvent::Connected);
    lemma_ack_arrived_reports(
        m.established(),
        now,
        seg,
        cap,
        fx.with_event(ConnEvent::Connected),
    );
}

proof fn lemma_syn_sent_step(m: ConnModel, now: Instant, seg: Segment, irs: SeqNr, s: Seq<u8>)
    requires
        m.inv(),
        m.tcb.state is SynSent,
        m.receives(s, 0),
        speaks(seg, irs, s),
    ensures
        ({
            let (n, g) = m.syn_sent_arrived(now, seg, FxModel::empty());
            &&& n.receives(s, 0)
            &&& fins_in(g.events) == 0
            &&& n.tcb.state is SynSent || n.tcb.state is Closed || {
                &&& n.tcb.irs == irs
                &&& n.tcb.awaits_fin()
            }
        }),
{
    let fx = FxModel::empty();
    assert(m.rcv.readable == 0) by {
        reveal(ConnModel::inv);
    }
    lemma_event(fx, ConnEvent::Connected);
    lemma_event(fx, ConnEvent::Closed(CloseReason::Refused));
    lemma_seq_at(irs, 0, 1);
    reveal(ConnModel::syn_sent_arrived);
    reveal(Tcb::syn_seen);
    reveal(Tcb::handshake_done);
}

/// The text of a reset does nothing.
proof fn lemma_reset_receiver(m: ConnModel, now: Instant, seg: Segment, cap: int, fx: FxModel)
    requires
        seg.flags.rst(),
        !(m.tcb.state is Closed),
        !(m.tcb.state is SynSent),
    ensures
        m.arrived(now, seg, cap, fx).0.same_receiver(m),
{
    lemma_timers_updated_receiver(m.sync_arrived(now, seg, cap, fx).0, now);
    reveal(ConnModel::sync_arrived);
    reveal(ConnModel::unacceptable_arrived);
    reveal(ConnModel::reset_by_peer);
}

proof fn lemma_segment_received(
    m: ConnModel,
    now: Instant,
    seg: Segment,
    irs: SeqNr,
    s: Seq<u8>,
    read: int,
    cap: int,
)
    requires
        m.inv(),
        m.receives(s, read),
        !(m.tcb.state is Closed),
        !(m.tcb.state is SynSent),
        m.tcb.irs == irs,
        speaks(seg, irs, s),
        s.len() < 0x8000_0000,
    ensures
        m.arrived(now, seg, cap, FxModel::empty()).0.receives(s, read),
        m.arrived(now, seg, cap, FxModel::empty()).0.tcb.irs == irs,
{
    let fx = FxModel::empty();
    let n = m.arrived(now, seg, cap, fx).0;
    if seg.flags.rst() {
        lemma_reset_receiver(m, now, seg, cap, fx);
        lemma_same_receiver_receives(m, n, s, read);
    } else if seg.flags.syn() {
        lemma_timers_updated_receiver(m.sync_arrived(now, seg, cap, fx).0, now);
        assert(m.sync_arrived(now, seg, cap, fx).0 == m) by {
            reveal(ConnModel::sync_arrived);
        }
        lemma_same_receiver_receives(m, n, s, read);
    } else {
        let pos = irs.add(1).distance_to(seg.seq);
        lemma_seq_at(irs, 1, 1 + pos);
        assert(carries(m, seg, s, read, pos)) by {
            assert(seq_at(irs, 1) == irs.add(1)) by {
                lemma_seq_at(irs, 0, 1);
            }
        }
        segments_of_a_stream_agree(m, now, seg, cap, fx, s, read, pos);
    }
}

proof fn lemma_segment_heard(
    h: Life,
    now: Instant,
    seg: Segment,
    irs: SeqNr,
    s: Seq<u8>,
    cap: int,
)
    requires
        h.m.inv(),
        hears(h.m, h.read, h.fins, irs, s),
        speaks(seg, irs, s),
        s.len() < 0x8000_0000,
    ensures
        ({
            let n = h.next(ConnInput::Segment(now, seg), cap);
            hears(n.m, n.read, n.fins, irs, s)
        }),
{
    reveal(Life::next);
    let m = h.m;
    let fx = FxModel::empty();
    let n = m.arrived(now, seg, cap, fx).0;
    reveal(hears);
    assert(fins_in(fx.events) == 0);
    if m.tcb.state is Closed {
        lemma_timers_updated_receiver(m, now);
    } else if m.tcb.state is SynSent {
        lemma_syn_sent_step(m, now, seg, irs, s);
        lemma_timers_updated_receiver(m.syn_sent_arrived(now, seg, fx).0, now);
    } else {
        lemma_sync_reports(m, now, seg, cap);
        lemma_timers_updated_receiver(m.sync_arrived(now, seg, cap, fx).0, now);
        lemma_segment_received(m, now, seg, irs, s, h.read.len() as int, cap);
        assert(!(n.tcb.state is SynSent)) by {
            lemma_segment_leaves_syn_sent(m, now, seg, cap, fx);
        }
    }
}

/// No segment leads back to SYN-SENT.
pub(crate) proof fn lemma_segment_leaves_syn_sent(
    m: ConnModel,
    now: Instant,
    seg: Segment,
    cap: int,
    fx: FxModel,
)
    requires
        !(m.tcb.state is Closed),
        !(m.tcb.state is SynSent),
    ensures
        !(m.sync_arrived(now, seg, cap, fx).0.tcb.state is SynSent),
{
    reveal(ConnModel::sync_arrived);
    lemma_newly_acked_receiver(m, now, seg.ack, cap, fx);
    reveal(ConnModel::unacceptable_arrived);
    reveal(ConnModel::reset_by_peer);
    lemma_ack_arrived_state(m, now, seg, cap, fx);
    lemma_ack_arrived_state(m.established(), now, seg, cap, fx.with_event(ConnEvent::Connected));
}

proof fn lemma_contents_state(
    a: ConnModel,
    now: Instant,
    seg: Segment,
    una: SeqNr,
    wnd: u32,
    fx: FxModel,
)
    requires
        !(a.tcb.state is SynSent),
    ensures
        !(a.contents_arrived(now, seg, una, wnd, fx).0.tcb.state is SynSent),
{
    let w = a.with(a.tcb.window_updated(seg, una));
    assert(w.tcb.state == a.tcb.state) by {
        reveal(Tcb::window_updated);
    }
    lemma_text_quiet(w, now, seg.seq, seg.payload, fx);
    let (x, g) = w.text_arrived(now, seg.seq, seg.payload, fx);
    let n = x.fin_recorded(seg, wnd);
    assert(n.tcb.state == x.tcb.state) by {
        reveal(Tcb::fin_noted);
        reveal(ConnModel::cut_at_fin);
    }
    reveal(ConnModel::fin_arrived);
    reveal(Tcb::fin_taken);
    reveal(Tcb::past_fin);
}

proof fn lemma_ack_arrived_state(m: ConnModel, now: Instant, seg: Segment, cap: int, fx: FxModel)
    requires
        !(m.tcb.state is Closed),
        !(m.tcb.state is SynSent),
    ensures
        !(m.ack_arrived(now, seg, cap, fx).0.tcb.state is SynSent),
{
    let (t, learned) = m.sacked(seg.opts.sack_blocks);
    let (a, f) = t.ack_processed(now, seg, learned, cap, fx);
    lemma_acked_receiver(m, now, seg, cap, fx);
    lemma_contents_state(a, now, seg, m.tcb.snd_una, m.open_window(), f);
    reveal(ConnModel::ack_arrived);
}

/// Segments keep everything in order.
proof fn lemma_segment_in_order(
    h: Life,
    now: Instant,
    seg: Segment,
    irs: SeqNr,
    s: Seq<u8>,
    cap: int,
)
    requires
        in_order(h, irs, s, cap),
        speaks(seg, irs, s),
        s.len() < 0x8000_0000,
    ensures
        in_order(h.next(ConnInput::Segment(now, seg), cap), irs, s, cap),
{
    reveal(Life::next);
    let m = h.m;
    let fx = FxModel::empty();
    let n = m.arrived(now, seg, cap, fx).0;
    segments_keep_invariant(m, now, seg, cap, fx);
    lemma_segment_heard(h, now, seg, irs, s, cap);
    assert(says(n, h.wrote, acked_after(m, n, h.acked), cap)) by {
        reveal(says);
        segments_keep_the_unacknowledged_stream(m, now, seg, cap, fx, h.wrote, h.acked);
    }
}

/// The receiving side is left alone, and the state changes only to Closed.
pub open spec fn not_heard(m: ConnModel, n: ConnModel) -> bool {
    &&& n.rcv == m.rcv
    &&& n.tcb.irs == m.tcb.irs
    &&& n.tcb.rcv_nxt == m.tcb.rcv_nxt
    &&& n.tcb.state == m.tcb.state || n.tcb.state is Closed
}

/// A step that leaves both sides alone, unless it closes, keeps everything in
/// order.
proof fn lemma_aside_in_order(h: Life, n: ConnModel, irs: SeqNr, s: Seq<u8>, cap: int)
    requires
        in_order(h, irs, s, cap),
        n.inv(),
        n.same_sender(h.m),
        not_heard(h.m, n),
    ensures
        in_order(Life { m: n, ..h }, irs, s, cap),
{
    reveal(hears);
    reveal(says);
}

pub(crate) proof fn lemma_fired_aside(m: ConnModel, now: Instant, kind: TimerKind)
    ensures
        ({
            let (n, f) = m.fired(now, kind, FxModel::empty());
            n.same_sender(m) && not_heard(m, n) && fins_in(f.events) == 0
        }),
{
    let fx = FxModel::empty();
    let c = m.timer_cleared(kind);
    lemma_closed_quiet(c, CloseReason::TimedOut, fx);
    lemma_closed_quiet(c, CloseReason::Normal, fx);
    match kind {
        TimerKind::Rexmit => {
            let (n, f) = c.rexmit_fired(now, fx);
            assert(n.same_sender(c) && not_heard(c, n) && fins_in(f.events) == 0) by {
                reveal(ConnModel::rexmit_fired);
            }
        },
        TimerKind::Persist => {
            let (n, f) = c.persist_fired(now, fx);
            assert(n.same_sender(c) && not_heard(c, n) && fins_in(f.events) == 0) by {
                reveal(ConnModel::persist_fired);
            }
        },
        TimerKind::DelAck => {
            let n = c.del_ack_fired();
            assert(n.same_sender(c) && not_heard(c, n)) by {
                reveal(ConnModel::del_ack_fired);
            }
        },
        TimerKind::Wait => {
            let (n, f) = c.wait_fired(fx);
            assert(n.same_sender(c) && not_heard(c, n) && fins_in(f.events) == 0) by {
                reveal(ConnModel::wait_fired);
            }
        },
    }
    reveal(ConnModel::fire_handled);
}

pub(crate) proof fn lemma_planned_aside(m: ConnModel, now: Instant)
    requires
        m.inv(),
    ensures
        not_heard(m, m.next_planned(now).0),
{
    lemma_chosen_waiting(m, now);
    lemma_timers_updated_receiver(m.chosen(now).0, now);
    reveal(keeps_waiting);
    assert(m.chosen(now).0.rcv == m.rcv) by {
        reveal(ConnModel::sync_planned);
        reveal(ConnModel::probe_or_ack);
    }
}

proof fn lemma_plan_in_order(h: Life, now: Instant, irs: SeqNr, s: Seq<u8>, cap: int)
    requires
        in_order(h, irs, s, cap),
    ensures
        in_order(h.next(ConnInput::Plan(now), cap), irs, s, cap),
{
    reveal(Life::next);
    let m = h.m;
    let n = m.next_planned(now).0;
    plans_keep_invariant(m, now);
    lemma_planned_aside(m, now);
    assert(hears(n, h.read, h.fins, irs, s)) by {
        reveal(hears);
    }
    assert(says(n, h.wrote, h.acked, cap)) by {
        reveal(says);
        segments_carry_the_stream(m, now, h.wrote, h.acked);
        plans_keep_text(m, now);
    }
}

proof fn lemma_write_in_order(h: Life, data: Seq<u8>, irs: SeqNr, s: Seq<u8>, cap: int)
    requires
        in_order(h, irs, s, cap),
        cap <= MAX_CAPACITY,
    ensures
        in_order(h.next(ConnInput::Write(data), cap), irs, s, cap),
{
    reveal(Life::next);
    let m = h.m;
    let x = h.next(ConnInput::Write(data), cap);
    assert(m.snd.len() <= cap) by {
        reveal(says);
    }
    calls_keep_invariant(m, data, cap, 0, FxModel::empty());
    assert(hears(x.m, x.read, x.fins, irs, s)) by {
        reveal(hears);
    }
    assert(says(x.m, x.wrote, x.acked, cap)) by {
        reveal(says);
        writes_extend_the_stream(m, data, cap, h.wrote, h.acked);
    }
}

proof fn lemma_read_in_order(h: Life, max: nat, irs: SeqNr, s: Seq<u8>, cap: int)
    requires
        in_order(h, irs, s, cap),
        cap <= MAX_CAPACITY,
    ensures
        in_order(h.next(ConnInput::Read(max), cap), irs, s, cap),
{
    reveal(Life::next);
    let m = h.m;
    let x = h.next(ConnInput::Read(max), cap);
    let n = m.readable_into(max as int);
    let read = h.read.len() as int;
    assert(m.snd.len() <= cap) by {
        reveal(says);
    }
    calls_keep_invariant(m, Seq::empty(), cap, n, FxModel::empty());
    assert(hears(x.m, x.read, x.fins, irs, s)) by {
        reveal(hears);
        reads_deliver_the_stream(m, s, read, n);
        assert(m.rcv.wf()) by {
            lemma_inv_scalars(m);
        }
        assert(x.read =~= s.take(read + n));
    }
    assert(says(x.m, x.wrote, x.acked, cap)) by {
        reveal(says);
    }
}

/// A step that leaves the sending side alone, and the receiving side unless it
/// closes, keeps everything in order.
proof fn lemma_same_sides_in_order(h: Life, n: ConnModel, irs: SeqNr, s: Seq<u8>, cap: int)
    requires
        in_order(h, irs, s, cap),
        n.inv(),
        n.same_sender(h.m),
        n.same_receiver(h.m),
    ensures
        in_order(Life { m: n, ..h }, irs, s, cap),
{
    assert(hears(n, h.read, h.fins, irs, s)) by {
        reveal(hears);
        lemma_same_receiver_receives(h.m, n, s, h.read.len() as int);
    }
    assert(says(n, h.wrote, h.acked, cap)) by {
        reveal(says);
    }
}

proof fn lemma_closed_aside(m: ConnModel, reason: CloseReason)
    ensures
        ({
            let (n, f) = m.closed(reason, FxModel::empty());
            n.same_sender(m) && n.same_receiver(m) && fins_in(f.events) == 0
        }),
{
    assert(fins_in(FxModel::empty().events) == 0);
    lemma_closed_quiet(m, reason, FxModel::empty());
}

proof fn lemma_shut_aside(m: ConnModel)
    ensures
        ({
            let (n, f, r) = m.shut(FxModel::empty());
            n.same_sender(m) && n.same_receiver(m) && fins_in(f.events) == 0
        }),
{
    assert(fins_in(FxModel::empty().events) == 0);
    lemma_closed_aside(m, CloseReason::Normal);
}

proof fn lemma_end_in_order(h: Life, input: ConnInput, irs: SeqNr, s: Seq<u8>, cap: int)
    requires
        in_order(h, irs, s, cap),
        cap <= MAX_CAPACITY,
        input is Close || input is Abort || input is Unreachable,
    ensures
        in_order(h.next(input, cap), irs, s, cap),
{
    let m = h.m;
    let fx = FxModel::empty();
    assert(fins_in(fx.events) == 0);
    assert(m.snd.len() <= cap) by {
        reveal(says);
    }
    calls_keep_invariant(m, Seq::empty(), cap, 0, fx);
    path_signals_keep_invariant(m, Instant { micros: 0 }, 0, fx);
    if input is Close {
        lemma_shut_aside(m);
        lemma_same_sides_in_order(h, m.shut(fx).0, irs, s, cap);
    } else if input is Abort {
        lemma_closed_aside(m, CloseReason::Aborted);
        lemma_same_sides_in_order(h, m.closed(CloseReason::Aborted, fx).0, irs, s, cap);
    } else {
        lemma_closed_aside(m, CloseReason::Unreachable);
        if m.tcb.state is SynSent || m.tcb.state is SynReceived {
            lemma_same_sides_in_order(h, m.closed(CloseReason::Unreachable, fx).0, irs, s, cap);
        }
    }
    reveal(Life::next);
}

proof fn lemma_timer_in_order(
    h: Life,
    now: Instant,
    kind: TimerKind,
    irs: SeqNr,
    s: Seq<u8>,
    cap: int,
)
    requires
        in_order(h, irs, s, cap),
    ensures
        in_order(h.next(ConnInput::Timer(now, kind), cap), irs, s, cap),
{
    reveal(Life::next);
    let fx = FxModel::empty();
    timers_keep_invariant(h.m, now, kind, fx);
    lemma_fired_aside(h.m, now, kind);
    lemma_aside_in_order(h, h.m.fired(now, kind, fx).0, irs, s, cap);
}

proof fn lemma_settle_in_order(h: Life, now: Instant, irs: SeqNr, s: Seq<u8>, cap: int)
    requires
        in_order(h, irs, s, cap),
    ensures
        in_order(h.next(ConnInput::Settle(now), cap), irs, s, cap),
{
    reveal(Life::next);
    lemma_timers_updated_inv(h.m, now);
    lemma_timers_updated_receiver(h.m, now);
    lemma_timers_updated_sender(h.m, now);
    lemma_aside_in_order(h, h.m.timers_updated(now), irs, s, cap);
}

proof fn lemma_path_in_order(h: Life, now: Instant, mss: u16, irs: SeqNr, s: Seq<u8>, cap: int)
    requires
        in_order(h, irs, s, cap),
    ensures
        in_order(h.next(ConnInput::PathMss(now, mss), cap), irs, s, cap),
        in_order(h.next(ConnInput::PathAge(now), cap), irs, s, cap),
{
    path_signals_keep_invariant(h.m, now, mss, FxModel::empty());
    lemma_aside_in_order(h, h.m.path_shrunk(now, mss), irs, s, cap);
    lemma_aside_in_order(h, h.m.path_aged(now), irs, s, cap);
    assert(h.next(ConnInput::PathMss(now, mss), cap) == (Life {
        m: h.m.path_shrunk(now, mss),
        ..h
    }) && h.next(ConnInput::PathAge(now), cap) == (Life { m: h.m.path_aged(now), ..h })) by {
        reveal(Life::next);
    }
}

proof fn lemma_reported_in_order(h: Life, reported: bool, irs: SeqNr, s: Seq<u8>, cap: int)
    requires
        in_order(h, irs, s, cap),
    ensures
        in_order(h.next(ConnInput::Reported(reported), cap), irs, s, cap),
{
    let a = h.m.with(Tcb { reported, ..h.m.tcb });
    assert(a.inv()) by {
        lemma_soft_change_inv(h.m, a);
    }
    lemma_aside_in_order(h, a, irs, s, cap);
    assert(h.next(ConnInput::Reported(reported), cap) == (Life { m: a, ..h })) by {
        reveal(Life::next);
    }
}

proof fn lemma_challenge_in_order(h: Life, irs: SeqNr, s: Seq<u8>, cap: int)
    requires
        in_order(h, irs, s, cap),
    ensures
        in_order(h.next(ConnInput::Challenge, cap), irs, s, cap),
{
    reveal(Life::next);
    let b = h.m.with(h.m.tcb.ack_now());
    assert(b.inv()) by {
        lemma_soft_change_inv(h.m, b);
    }
    lemma_aside_in_order(h, b, irs, s, cap);
}

/// Everything that can happen keeps everything in order.
proof fn lemma_step_in_order(h: Life, input: ConnInput, irs: SeqNr, s: Seq<u8>, cap: int)
    requires
        in_order(h, irs, s, cap),
        cap <= MAX_CAPACITY,
        s.len() < 0x8000_0000,
        input matches ConnInput::Segment(now, seg) ==> speaks(seg, irs, s),
    ensures
        in_order(h.next(input, cap), irs, s, cap),
{
    match input {
        ConnInput::Segment(now, seg) => {
            lemma_segment_in_order(h, now, seg, irs, s, cap);
        },
        ConnInput::Timer(now, kind) => {
            lemma_timer_in_order(h, now, kind, irs, s, cap);
        },
        ConnInput::Plan(now) => {
            lemma_plan_in_order(h, now, irs, s, cap);
        },
        ConnInput::Settle(now) => {
            lemma_settle_in_order(h, now, irs, s, cap);
        },
        ConnInput::Write(data) => {
            lemma_write_in_order(h, data, irs, s, cap);
        },
        ConnInput::Read(max) => {
            lemma_read_in_order(h, max, irs, s, cap);
        },
        ConnInput::PathMss(now, mss) => {
            lemma_path_in_order(h, now, mss, irs, s, cap);
        },
        ConnInput::PathAge(now) => {
            lemma_path_in_order(h, now, 0, irs, s, cap);
        },
        ConnInput::Reported(reported) => {
            lemma_reported_in_order(h, reported, irs, s, cap);
        },
        ConnInput::Challenge => {
            lemma_challenge_in_order(h, irs, s, cap);
        },
        _ => {
            lemma_end_in_order(h, input, irs, s, cap);
        },
    }
}

pub(crate) proof fn lemma_run_in_order(
    h: Life,
    inputs: Seq<ConnInput>,
    irs: SeqNr,
    s: Seq<u8>,
    cap: int,
)
    requires
        in_order(h, irs, s, cap),
        cap <= MAX_CAPACITY,
        s.len() < 0x8000_0000,
        peer_speaks(inputs, irs, s),
    ensures
        in_order(h.run(inputs, cap), irs, s, cap),
    decreases inputs.len(),
{
    if inputs.len() > 0 {
        let init = inputs.drop_last();
        assert forall|i: int| 0 <= i < init.len() implies ((#[trigger] init[i])
            matches ConnInput::Segment(now, seg) ==> speaks(seg, irs, s)) by {
            assert(init[i] == inputs[i]);
        }
        lemma_run_in_order(h, init, irs, s, cap);
        assert(inputs[inputs.len() - 1] == inputs.last());
        lemma_step_in_order(h.run(init, cap), inputs.last(), irs, s, cap);
    }
}

/// The life of a connection that we opened.
pub open spec fn opened_life(
    cfg: Config,
    params: ConnParams,
    local: SocketAddr,
    remote: SocketAddr,
    iss: SeqNr,
    rcv_cap: nat,
) -> Life {
    Life::born(ConnModel::opened(cfg, params, local, remote, iss, rcv_cap))
}

/// The life of a connection that a SYN of the peer opened.
pub open spec fn accepted_life(
    cfg: Config,
    params: ConnParams,
    local: SocketAddr,
    remote: SocketAddr,
    iss: SeqNr,
    syn: PeerSyn,
    rcv_cap: nat,
) -> Life {
    Life::born(ConnModel::accepted(cfg, params, local, remote, iss, syn, rcv_cap))
}

pub(crate) proof fn lemma_born_in_order(h: Life, irs: SeqNr, s: Seq<u8>, cap: int)
    requires
        h == Life::born(h.m),
        h.m.inv(),
        h.m.snd.len() == 0,
        h.m.rcv.readable == 0,
        h.m.rcv.ranges.len() == 0,
        !h.m.tcb.syn_acked,
        h.m.tcb.snd_una == h.m.tcb.iss,
        h.m.tcb.state is SynSent || (h.m.tcb.state is SynReceived && h.m.tcb.irs == irs
            && h.m.tcb.rcv_nxt == irs.add(1)),
        0 <= cap,
    ensures
        in_order(h, irs, s, cap),
{
    lemma_seq_at(h.m.tcb.iss, 0, 0);
    lemma_seq_at(irs, 0, 1);
    assert(hears(h.m, h.read, h.fins, irs, s)) by {
        reveal(hears);
        assert(h.read =~= s.take(0));
    }
    assert(says(h.m, h.wrote, h.acked, cap)) by {
        reveal(says);
        assert(h.m.snd =~= h.wrote.skip(0));
    }
}

// ----- What is sent -----

/// Whether the next segment that a connection sends, if any, carries what the
/// application wrote: the bytes that belong at its sequence number, counted from
/// the one behind the SYN, and a FIN only behind the last one.
pub open spec fn sends_what_was_written(h: Life, now: Instant) -> bool {
    h.m.next_planned(now).1 matches Some(p) ==> {
        &&& p.payload_len > 0 ==> exists|pos: int|
            {
                &&& 0 <= pos <= h.wrote.len() - p.payload_len
                &&& p.seq == #[trigger] seq_at(h.m.tcb.iss, 1 + pos)
                &&& h.m.snd.subrange(p.payload_off as int, p.payload_off + p.payload_len)
                    == h.wrote.subrange(pos, pos + p.payload_len)
            }
        &&& p.flags.fin() ==> p.seq.add(p.payload_len) == seq_at(
            h.m.tcb.iss,
            1 + h.wrote.len() as int,
        )
    }
}

proof fn lemma_sends_what_was_written(h: Life, now: Instant, cap: int)
    requires
        h.m.inv(),
        says(h.m, h.wrote, h.acked, cap),
    ensures
        sends_what_was_written(h, now),
{
    reveal(says);
    segments_carry_the_stream(h.m, now, h.wrote, h.acked);
    if let Some(p) = h.m.next_planned(now).1 {
        if p.payload_len > 0 {
            let pos = h.acked + p.payload_off;
            assert(p.seq == seq_at(h.m.tcb.iss, 1 + pos));
        }
    }
}

/// Whatever happened to a connection that we opened, the next segment that it
/// sends carries what the application wrote.
pub proof fn opened_connections_send_what_was_written(
    cfg: Config,
    params: ConnParams,
    local: SocketAddr,
    remote: SocketAddr,
    iss: SeqNr,
    rcv_cap: nat,
    inputs: Seq<ConnInput>,
    irs: SeqNr,
    s: Seq<u8>,
    cap: int,
    now: Instant,
)
    requires
        rcv_cap <= MAX_CAPACITY,
        0 <= cap <= MAX_CAPACITY,
        params.offer_wscale matches Some(w) ==> w <= 14,
        s.len() < 0x8000_0000,
        peer_speaks(inputs, irs, s),
    ensures
        sends_what_was_written(
            opened_life(cfg, params, local, remote, iss, rcv_cap).run(inputs, cap),
            now,
        ),
{
    let h = opened_life(cfg, params, local, remote, iss, rcv_cap);
    let syn = PeerSyn { seq: iss, window: 0, mss: None, wscale: None, sack_permitted: false };
    open_establishes_invariant(cfg, params, local, remote, iss, syn, rcv_cap);
    lemma_born_in_order(h, irs, s, cap);
    lemma_run_in_order(h, inputs, irs, s, cap);
    lemma_sends_what_was_written(h.run(inputs, cap), now, cap);
}

/// The same of a connection that a SYN of the peer opened.
pub proof fn accepted_connections_send_what_was_written(
    cfg: Config,
    params: ConnParams,
    local: SocketAddr,
    remote: SocketAddr,
    iss: SeqNr,
    syn: PeerSyn,
    rcv_cap: nat,
    inputs: Seq<ConnInput>,
    s: Seq<u8>,
    cap: int,
    now: Instant,
)
    requires
        rcv_cap <= MAX_CAPACITY,
        0 <= cap <= MAX_CAPACITY,
        params.offer_wscale matches Some(w) ==> w <= 14,
        syn.wscale matches Some(w) ==> w <= 14,
        s.len() < 0x8000_0000,
        peer_speaks(inputs, syn.seq, s),
    ensures
        sends_what_was_written(
            accepted_life(cfg, params, local, remote, iss, syn, rcv_cap).run(inputs, cap),
            now,
        ),
{
    let h = accepted_life(cfg, params, local, remote, iss, syn, rcv_cap);
    open_establishes_invariant(cfg, params, local, remote, iss, syn, rcv_cap);
    lemma_born_in_order(h, syn.seq, s, cap);
    lemma_run_in_order(h, inputs, syn.seq, s, cap);
    lemma_sends_what_was_written(h.run(inputs, cap), now, cap);
}

// ----- The peer's FIN -----

/// The end of the peer's stream was reported at most once, and not before its
/// FIN was consumed.
spec fn reported_once(h: Life) -> bool {
    &&& 0 <= h.fins <= 1
    &&& !(h.m.tcb.state is SynSent || h.m.tcb.state is Closed) ==> h.fins == one_if(
        !h.m.tcb.awaits_fin(),
    )
    &&& h.m.tcb.state is SynSent ==> h.fins == 0
}

/// Once the peer's FIN is consumed, or the connection closed, nothing leads
/// back, and RCV.NXT stays.
spec fn stays_past_fin(m: ConnModel, n: ConnModel) -> bool {
    !m.tcb.awaits_fin() && !(m.tcb.state is SynSent) ==> {
        &&& !n.tcb.awaits_fin()
        &&& !(n.tcb.state is SynSent)
        &&& n.tcb.rcv_nxt == m.tcb.rcv_nxt
        &&& m.tcb.state is Closed ==> n.tcb.state is Closed
    }
}

proof fn lemma_syn_sent_reports(m: ConnModel, now: Instant, seg: Segment)
    requires
        m.tcb.state is SynSent,
    ensures
        ({
            let (n, g) = m.syn_sent_arrived(now, seg, FxModel::empty());
            &&& fins_in(g.events) == 0
            &&& n.tcb.state is SynSent || n.tcb.state is Closed || n.tcb.awaits_fin()
        }),
{
    let fx = FxModel::empty();
    lemma_event(fx, ConnEvent::Connected);
    lemma_event(fx, ConnEvent::Closed(CloseReason::Refused));
    reveal(ConnModel::syn_sent_arrived);
    reveal(Tcb::syn_seen);
    reveal(Tcb::handshake_done);
}

/// The acknowledgment of a segment leaves the receiving side alone.
pub(crate) proof fn lemma_acked_receiver(m: ConnModel, now: Instant, seg: Segment, cap: int, fx: FxModel)
    requires
        !(m.tcb.state is Closed),
    ensures
        ({
            let (t, learned) = m.sacked(seg.opts.sack_blocks);
            t.ack_processed(now, seg, learned, cap, fx).0.same_receiver(m)
        }),
{
    let (t, learned) = m.sacked(seg.opts.sack_blocks);
    lemma_newly_acked_receiver(t, now, seg.ack, cap, fx);
    reveal(ConnModel::ack_processed);
    reveal(Tcb::dupacked);
}

/// Once the peer's FIN is consumed, or the connection closed, the contents of
/// a segment change nothing that was received.
pub(crate) proof fn lemma_contents_past_fin(
    a: ConnModel,
    now: Instant,
    seg: Segment,
    una: SeqNr,
    wnd: u32,
    fx: FxModel,
)
    requires
        !a.tcb.awaits_fin(),
    ensures
        ({
            let n = a.contents_arrived(now, seg, una, wnd, fx).0;
            &&& n.tcb.state == a.tcb.state
            &&& n.tcb.rcv_nxt == a.tcb.rcv_nxt
            &&& n.tcb.irs == a.tcb.irs
            &&& n.rcv.readable == a.rcv.readable
        }),
{
    let w = a.with(a.tcb.window_updated(seg, una));
    assert(w.tcb.state == a.tcb.state && w.tcb.rcv_nxt == a.tcb.rcv_nxt && w.tcb.irs == a.tcb.irs)
        by {
        reveal(Tcb::window_updated);
    }
    let (x, g) = w.text_arrived(now, seg.seq, seg.payload, fx);
    assert(x == w) by {
        reveal(ConnModel::text_arrived);
    }
    let n = x.fin_recorded(seg, wnd);
    assert(n.tcb == x.tcb && n.rcv.readable == x.rcv.readable) by {
        reveal(Tcb::fin_noted);
        reveal(ConnModel::cut_at_fin);
    }
    assert(n.fin_arrived(now, g) == (n, g)) by {
        reveal(ConnModel::fin_arrived);
    }
}

proof fn lemma_ack_arrived_stays(m: ConnModel, now: Instant, seg: Segment, cap: int, fx: FxModel)
    requires
        !(m.tcb.state is Closed),
        !(m.tcb.state is SynSent),
        !m.tcb.awaits_fin(),
    ensures
        stays_past_fin(m, m.ack_arrived(now, seg, cap, fx).0),
{
    let (t, learned) = m.sacked(seg.opts.sack_blocks);
    let (a, f) = t.ack_processed(now, seg, learned, cap, fx);
    lemma_acked_receiver(m, now, seg, cap, fx);
    lemma_contents_past_fin(a, now, seg, m.tcb.snd_una, m.open_window(), f);
    reveal(ConnModel::ack_arrived);
}

pub(crate) proof fn lemma_unacceptable_stays(
    m: ConnModel,
    now: Instant,
    seg: Segment,
    cap: int,
    fx: FxModel,
)
    requires
        !(m.tcb.state is Closed),
    ensures
        m.unacceptable_arrived(now, seg, cap, fx).0.same_receiver(m),
{
    lemma_newly_acked_receiver(m, now, seg.ack, cap, fx);
    reveal(ConnModel::unacceptable_arrived);
}

proof fn lemma_reset_stays(m: ConnModel, fx: FxModel)
    ensures
        m.reset_by_peer(fx).0.tcb.state is Closed,
        m.reset_by_peer(fx).0.tcb.rcv_nxt == m.tcb.rcv_nxt,
{
    reveal(ConnModel::reset_by_peer);
}

proof fn lemma_sync_stays(m: ConnModel, now: Instant, seg: Segment, cap: int, fx: FxModel)
    requires
        !(m.tcb.state is Closed),
        !(m.tcb.state is SynSent),
        !m.tcb.awaits_fin(),
    ensures
        stays_past_fin(m, m.sync_arrived(now, seg, cap, fx).0),
{
    if seg.flags.syn() && !seg.flags.rst() {
        reveal(ConnModel::sync_arrived);
    } else if !acceptable(m.tcb.rcv_nxt, m.open_window(), seg.seq, seg.len()) {
        lemma_unacceptable_stays(m, now, seg, cap, fx);
        reveal(ConnModel::sync_arrived);
    } else if seg.flags.rst() {
        lemma_reset_stays(m, fx);
        reveal(ConnModel::sync_arrived);
    } else {
        lemma_ack_arrived_stays(m, now, seg, cap, fx);
        reveal(ConnModel::sync_arrived);
    }
}

proof fn lemma_segment_stays(m: ConnModel, now: Instant, seg: Segment, cap: int)
    ensures
        stays_past_fin(m, m.arrived(now, seg, cap, FxModel::empty()).0),
{
    let fx = FxModel::empty();
    if m.tcb.state is Closed {
        lemma_timers_updated_receiver(m, now);
    } else if !(m.tcb.state is SynSent) && !m.tcb.awaits_fin() {
        lemma_sync_stays(m, now, seg, cap, fx);
        lemma_timers_updated_receiver(m.sync_arrived(now, seg, cap, fx).0, now);
    }
}

proof fn lemma_segment_once(h: Life, now: Instant, seg: Segment, cap: int)
    requires
        reported_once(h),
    ensures
        reported_once(h.next(ConnInput::Segment(now, seg), cap)),
{
    reveal(Life::next);
    let m = h.m;
    let fx = FxModel::empty();
    assert(fins_in(fx.events) == 0);
    if m.tcb.state is Closed {
        lemma_timers_updated_receiver(m, now);
    } else if m.tcb.state is SynSent {
        lemma_syn_sent_reports(m, now, seg);
        lemma_timers_updated_receiver(m.syn_sent_arrived(now, seg, fx).0, now);
    } else {
        lemma_sync_reports(m, now, seg, cap);
        lemma_segment_leaves_syn_sent(m, now, seg, cap, fx);
        lemma_timers_updated_receiver(m.sync_arrived(now, seg, cap, fx).0, now);
    }
}

proof fn lemma_rexmit_plans_quiet(m: ConnModel, now: Instant)
    ensures
        m.head_rexmit(now) matches Some((t, p)) ==> t.state == m.tcb.state && t.rcv_nxt
            == m.tcb.rcv_nxt,
        m.hole_rexmit(now) matches Some((t, p)) ==> t.state == m.tcb.state && t.rcv_nxt
            == m.tcb.rcv_nxt,
{
    reveal(ConnModel::head_rexmit);
    reveal(ConnModel::hole_rexmit);
    reveal(ConnModel::hole_filled);
    reveal(Tcb::syn_planned);
    reveal(Tcb::head_resent);
    reveal(Tcb::ack_sent);
}

proof fn lemma_fresh_plans_quiet(m: ConnModel, now: Instant)
    ensures
        m.new_data(now) matches Some((t, p)) ==> t.state == m.tcb.state && t.rcv_nxt
            == m.tcb.rcv_nxt,
        m.lone_fin(now) matches Some((t, p)) ==> t.state == m.tcb.state && t.rcv_nxt
            == m.tcb.rcv_nxt,
        m.leftovers().0.tcb.state == m.tcb.state,
        m.leftovers().0.tcb.rcv_nxt == m.tcb.rcv_nxt,
{
    reveal(ConnModel::new_data);
    reveal(ConnModel::lone_fin);
    reveal(ConnModel::probe_or_ack);
    reveal(ConnModel::probe);
    reveal(ConnModel::pure_ack);
    reveal(Tcb::data_sent_on);
    reveal(Tcb::ack_sent);
}

proof fn lemma_plan_quiet(m: ConnModel, now: Instant)
    ensures
        m.next_planned(now).0.tcb.state == m.tcb.state,
        m.next_planned(now).0.tcb.rcv_nxt == m.tcb.rcv_nxt,
{
    let a = m.with(Tcb { rexmit_now: false, ..m.tcb });
    lemma_rexmit_plans_quiet(a, now);
    lemma_fresh_plans_quiet(a, now);
    assert(m.sync_planned(now).0.tcb.state == m.tcb.state && m.sync_planned(now).0.tcb.rcv_nxt
        == m.tcb.rcv_nxt) by {
        reveal(ConnModel::sync_planned);
    }
    assert(m.chosen(now).0.tcb.state == m.tcb.state && m.chosen(now).0.tcb.rcv_nxt
        == m.tcb.rcv_nxt) by {
        reveal(Tcb::syn_planned);
    }
    lemma_timers_updated_receiver(m.chosen(now).0, now);
}

/// A step that leaves the receiving side alone reports nothing.
proof fn lemma_aside_once(h: Life, x: Life)
    requires
        reported_once(h),
        x.m.tcb.rcv_nxt == h.m.tcb.rcv_nxt,
        x.m.tcb.state == h.m.tcb.state || x.m.tcb.state is Closed,
        x.fins == h.fins,
    ensures
        reported_once(x),
        stays_past_fin(h.m, x.m),
{
}

proof fn lemma_timers_once(h: Life, input: ConnInput, cap: int)
    requires
        reported_once(h),
        input is Timer || input is Plan || input is Settle,
    ensures
        reported_once(h.next(input, cap)),
        stays_past_fin(h.m, h.next(input, cap).m),
{
    let m = h.m;
    match input {
        ConnInput::Timer(now, kind) => {
            lemma_fired_aside(m, now, kind);
        },
        ConnInput::Plan(now) => {
            lemma_plan_quiet(m, now);
        },
        ConnInput::Settle(now) => {
            lemma_timers_updated_receiver(m, now);
        },
        _ => {},
    }
    reveal(Life::next);
    lemma_aside_once(h, h.next(input, cap));
}

proof fn lemma_step_once(h: Life, input: ConnInput, cap: int)
    requires
        reported_once(h),
    ensures
        reported_once(h.next(input, cap)),
        stays_past_fin(h.m, h.next(input, cap).m),
{
    match input {
        ConnInput::Segment(now, seg) => {
            lemma_segment_once(h, now, seg, cap);
            lemma_segment_stays(h.m, now, seg, cap);
            reveal(Life::next);
        },
        _ => {
            if input is Timer || input is Plan || input is Settle {
                lemma_timers_once(h, input, cap);
            } else if input is Close || input is Abort || input is Unreachable {
                lemma_end_once(h, input, cap);
            } else {
                lemma_rest_quiet(h, input, cap);
                lemma_aside_once(h, h.next(input, cap));
            }
        },
    }
}

proof fn lemma_end_once(h: Life, input: ConnInput, cap: int)
    requires
        reported_once(h),
        input is Close || input is Abort || input is Unreachable,
    ensures
        reported_once(h.next(input, cap)),
        stays_past_fin(h.m, h.next(input, cap).m),
{
    reveal(Life::next);
    let fx = FxModel::empty();
    assert(fins_in(fx.events) == 0);
    lemma_closed_quiet(h.m, CloseReason::Normal, fx);
    lemma_closed_quiet(h.m, CloseReason::Aborted, fx);
    lemma_closed_quiet(h.m, CloseReason::Unreachable, fx);
}

proof fn lemma_rest_quiet(h: Life, input: ConnInput, cap: int)
    requires
        input is Write || input is Read || input is PathMss || input is PathAge
            || input is Reported || input is Challenge,
    ensures
        h.next(input, cap).m.tcb.state == h.m.tcb.state,
        h.next(input, cap).m.tcb.rcv_nxt == h.m.tcb.rcv_nxt,
        h.next(input, cap).fins == h.fins,
{
    reveal(Life::next);
}

proof fn lemma_run_once(h: Life, inputs: Seq<ConnInput>, cap: int)
    requires
        reported_once(h),
    ensures
        reported_once(h.run(inputs, cap)),
        stays_past_fin(h.m, h.run(inputs, cap).m),
    decreases inputs.len(),
{
    if inputs.len() > 0 {
        lemma_run_once(h, inputs.drop_last(), cap);
        lemma_step_once(h.run(inputs.drop_last(), cap), inputs.last(), cap);
    }
}

/// The end of the peer's stream is reported at most once in the life of a
/// connection, whatever arrives and whatever else happens.
pub proof fn peer_fin_is_reported_once(
    cfg: Config,
    params: ConnParams,
    local: SocketAddr,
    remote: SocketAddr,
    iss: SeqNr,
    syn: PeerSyn,
    rcv_cap: nat,
    inputs: Seq<ConnInput>,
    cap: int,
)
    ensures
        0 <= opened_life(cfg, params, local, remote, iss, rcv_cap).run(inputs, cap).fins <= 1,
        0 <= accepted_life(cfg, params, local, remote, iss, syn, rcv_cap).run(inputs, cap).fins
            <= 1,
{
    lemma_run_once(opened_life(cfg, params, local, remote, iss, rcv_cap), inputs, cap);
    lemma_run_once(accepted_life(cfg, params, local, remote, iss, syn, rcv_cap), inputs, cap);
}

/// Once the peer's FIN is consumed, RCV.NXT never changes again, whatever FINs
/// or data arrive and whatever else happens.
pub proof fn rcv_nxt_stays_past_the_fin(h: Life, inputs: Seq<ConnInput>, cap: int)
    requires
        !h.m.tcb.awaits_fin(),
        !(h.m.tcb.state is SynSent),
    ensures
        h.run(inputs, cap).m.tcb.rcv_nxt == h.m.tcb.rcv_nxt,
        !h.run(inputs, cap).m.tcb.awaits_fin(),
{
    let g = Life { fins: one_if(!(h.m.tcb.state is Closed)), ..h };
    lemma_run_once(g, inputs, cap);
    lemma_fins_do_not_matter(h, g, inputs, cap);
}

proof fn lemma_fins_do_not_matter(a: Life, b: Life, inputs: Seq<ConnInput>, cap: int)
    requires
        a.m == b.m,
    ensures
        a.run(inputs, cap).m == b.run(inputs, cap).m,
    decreases inputs.len(),
{
    if inputs.len() > 0 {
        let init = inputs.drop_last();
        lemma_fins_do_not_matter(a, b, init, cap);
        lemma_step_of_the_connection(a.run(init, cap), b.run(init, cap), inputs.last(), cap);
    }
}

/// What becomes of a connection depends on nothing but the connection.
proof fn lemma_step_of_the_connection(a: Life, b: Life, input: ConnInput, cap: int)
    requires
        a.m == b.m,
    ensures
        a.next(input, cap).m == b.next(input, cap).m,
{
    reveal(Life::next);
}

/// The peer's FIN is consumed only when it is next in order: RCV.NXT steps over
/// it and nothing else, the application hears of it, and the closing handshake
/// goes on.
pub proof fn fin_is_consumed_in_order(m: ConnModel, now: Instant, fx: FxModel)
    requires
        fx.events.len() < 4,
    ensures
        ({
            let (n, f) = m.fin_arrived(now, fx);
            let consumed = m.tcb.awaits_fin() && m.tcb.peer_fin == Some(m.tcb.rcv_nxt);
            &&& !consumed ==> (n, f) == (m, fx)
            &&& consumed ==> {
                &&& n.tcb.rcv_nxt == m.tcb.rcv_nxt.add(1)
                &&& n.tcb.peer_fin is None
                &&& n.rcv == m.rcv
                &&& f == fx.with_event(ConnEvent::PeerFin)
                &&& n.tcb.state == match m.tcb.state {
                    State::FinWait1 => State::Closing,
                    State::FinWait2 => State::TimeWait,
                    _ => State::CloseWait,
                }
            }
        }),
{
    reveal(ConnModel::fin_arrived);
    reveal(Tcb::fin_taken);
    reveal(Tcb::past_fin);
}

} // verus!
