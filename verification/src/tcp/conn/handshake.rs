//! How connections open: the SYNs, what they negotiate, and what ends an
//! attempt.
use super::input::{segments_keep_invariant, Segment};
use super::model::lemma_inv_scalars;
use super::transmission::{
    lemma_flag_bits, owed_ack_is_sent, segments_acknowledge_what_arrived,
};
use super::{ConnEvent, ConnModel, ConnParams, FxModel, PeerSyn, ResetReply, Tcb};
use crate::config::Config;
use crate::tcp::seq::SeqNr;
use crate::time::Instant;
use crate::types::{CloseReason, SocketAddr};
use vstd::prelude::*;

verus! {

/// What two SYNs agree on: windows are scaled only if both offer it, each side's
/// by its own shift; selective acknowledgments are used only if both offer them;
/// and segments are no larger than the peer says, or than every host takes.
pub open spec fn negotiated(
    t: Tcb,
    params: ConnParams,
    mss: Option<u16>,
    wscale: Option<u8>,
    sack: bool,
    default_mss: int,
) -> bool {
    &&& params.offer_wscale is Some && wscale is Some ==> {
        &&& t.wscale_on
        &&& t.rcv_scale == params.offer_wscale->0
        &&& t.snd_scale == wscale->0
    }
    &&& params.offer_wscale is None || wscale is None ==> {
        &&& !t.wscale_on
        &&& t.rcv_scale == 0
        &&& t.snd_scale == 0
    }
    &&& t.sack_enabled <==> params.offer_sack && sack
    &&& mss matches Some(m) ==> (m >= 64 ==> t.peer_mss == m) && (m < 64 ==> t.peer_mss == 64)
    &&& mss is None ==> t.peer_mss == default_mss
}

/// A connection that we open starts with a SYN that offers what is configured,
/// announces the whole buffer, as far as the field reaches, and is sent again
/// after the initial timeout. Nothing else is sent before the answer.
pub proof fn opening_sends_a_syn(
    cfg: Config,
    params: ConnParams,
    local: SocketAddr,
    remote: SocketAddr,
    iss: SeqNr,
    rcv_cap: nat,
    now: Instant,
)
    requires
        rcv_cap <= 0x4000_0000,
        params.offer_wscale matches Some(w) ==> w <= 14,
    ensures
        ({
            let m = ConnModel::opened(cfg, params, local, remote, iss, rcv_cap);
            let (n, p) = m.next_planned(now);
            &&& m.tcb.local == local && m.tcb.remote == remote
            &&& p matches Some(q) && {
                &&& q.flags.syn() && !q.flags.fin()
                &&& q.seq == iss
                &&& q.ack is None
                &&& q.payload_len == 0
                &&& rcv_cap <= 65535 ==> q.window == rcv_cap
                &&& rcv_cap >= 65535 ==> q.window == 65535
                &&& q.syn_opts matches Some(o) && o.mss == params.local_mss && o.wscale
                    == params.offer_wscale && o.sack_permitted == params.offer_sack
            }
            &&& n.tcb.state is SynSent
            &&& n.tcb.snd_una == iss && n.tcb.snd_nxt == iss.add(1)
            &&& n.tcb.timers.rexmit == Some(now + cfg.rto_initial)
            &&& n.next_planned(now).1 is None
        }),
{
    lemma_flag_bits();
    reveal(Tcb::syn_planned);
    reveal(Tcb::rexmit_settled);
    reveal(Tcb::persist_settled);
}

/// A SYN that reaches a listener is answered by a SYN of ours that acknowledges
/// it and repeats only what both sides offer.
pub proof fn accepting_answers_the_syn(
    cfg: Config,
    params: ConnParams,
    local: SocketAddr,
    remote: SocketAddr,
    iss: SeqNr,
    syn: PeerSyn,
    rcv_cap: nat,
    now: Instant,
)
    requires
        rcv_cap <= 0x4000_0000,
        params.offer_wscale matches Some(w) ==> w <= 14,
        syn.wscale matches Some(w) ==> w <= 14,
    ensures
        ({
            let m = ConnModel::accepted(cfg, params, local, remote, iss, syn, rcv_cap);
            let (n, p) = m.next_planned(now);
            &&& m.tcb.local == local && m.tcb.remote == remote
            &&& m.tcb.passive && m.tcb.listener_port == local.port
            &&& m.tcb.snd_wnd == syn.window
            &&& negotiated(
                m.tcb,
                params,
                syn.mss,
                syn.wscale,
                syn.sack_permitted,
                if remote.ip is V4 {
                    536
                } else {
                    1220
                },
            )
            &&& p matches Some(q) && {
                &&& q.flags.syn() && !q.flags.fin()
                &&& q.seq == iss
                &&& q.ack == Some(syn.seq.add(1))
                &&& q.payload_len == 0
                &&& rcv_cap <= 65535 ==> q.window == rcv_cap
                &&& rcv_cap >= 65535 ==> q.window == 65535
                &&& q.syn_opts matches Some(o) && {
                    &&& o.mss == params.local_mss
                    &&& o.wscale == if syn.wscale is Some {
                        params.offer_wscale
                    } else {
                        None
                    }
                    &&& o.sack_permitted == (params.offer_sack && syn.sack_permitted)
                }
            }
            &&& n.tcb.state is SynReceived
            &&& n.tcb.irs == syn.seq && n.tcb.rcv_nxt == syn.seq.add(1)
            &&& n.tcb.timers.rexmit == Some(now + cfg.rto_initial)
        }),
{
    lemma_flag_bits();
    reveal(Tcb::syn_planned);
    reveal(Tcb::rexmit_settled);
    reveal(Tcb::persist_settled);
}

/// The answer to our SYN, from a peer that acknowledges it: the connection is
/// established, the application hears of it, what was negotiated holds, and the
/// answer is acknowledged next.
pub proof fn answer_establishes(m: ConnModel, now: Instant, later: Instant, seg: Segment, cap: int)
    requires
        m.inv(),
        seg.legal(),
        m.tcb.state is SynSent,
        m.tcb.snd_nxt == m.tcb.iss.add(1),
        seg.flags.syn() && seg.flags.ack() && !seg.flags.rst(),
        seg.ack == m.tcb.iss.add(1),
    ensures
        ({
            let (n, f) = m.arrived(now, seg, cap, FxModel::empty());
            &&& n.tcb.state is Established
            &&& f.events == seq![ConnEvent::Connected]
            &&& f.reset_reply is None
            &&& n.tcb.irs == seg.seq && n.tcb.rcv_nxt == seg.seq.add(1)
            &&& n.tcb.snd_una == seg.ack && n.tcb.syn_acked
            &&& n.tcb.snd_wnd == seg.window
            &&& n.snd == m.snd
            &&& negotiated(
                n.tcb,
                m.tcb.params,
                seg.opts.mss,
                seg.opts.window_scale,
                seg.opts.sack_permitted,
                m.tcb.peer_mss as int,
            )
            &&& n.tcb.rexmit_count == 0
            &&& n.next_planned(later).1 matches Some(p) && p.ack == Some(seg.seq.add(1))
        }),
{
    let fx = FxModel::empty();
    assert(fx.with_event(ConnEvent::Connected).events =~= seq![ConnEvent::Connected]);
    let n = m.arrived(now, seg, cap, fx).0;
    let t = m.tcb.syn_seen(seg).handshake_done(now, seg.ack);
    assert(m.syn_sent_arrived(now, seg, fx) == (
        m.with(t),
        fx.with_event(ConnEvent::Connected),
    )) by {
        reveal(ConnModel::syn_sent_arrived);
    }
    segments_keep_invariant(m, now, seg, cap, fx);
    assert(t.state is Established && t.irs == seg.seq && t.rcv_nxt == seg.seq.add(1) && t.snd_una
        == seg.ack && t.syn_acked && t.snd_wnd == seg.window && t.rexmit_count == 0
        && t.ack_state is Now && t.snd_nxt == m.tcb.snd_nxt) by {
        reveal(Tcb::syn_seen);
        reveal(Tcb::handshake_done);
    }
    assert(negotiated(
        t,
        m.tcb.params,
        seg.opts.mss,
        seg.opts.window_scale,
        seg.opts.sack_permitted,
        m.tcb.peer_mss as int,
    )) by {
        reveal(Tcb::syn_seen);
        reveal(Tcb::handshake_done);
    }
    reveal(Tcb::rexmit_settled);
    reveal(Tcb::persist_settled);
    owed_ack_is_sent(n, later);
    segments_acknowledge_what_arrived(n, later);
}

/// A SYN of the peer that crossed ours: both sides go on with a SYN-ACK.
pub proof fn crossing_syns_meet(m: ConnModel, now: Instant, seg: Segment, cap: int)
    requires
        m.inv(),
        seg.legal(),
        m.tcb.state is SynSent,
        seg.flags.syn() && !seg.flags.ack() && !seg.flags.rst(),
    ensures
        ({
            let (n, f) = m.arrived(now, seg, cap, FxModel::empty());
            &&& n.tcb.state is SynReceived
            &&& f == FxModel::empty()
            &&& n.tcb.irs == seg.seq && n.tcb.rcv_nxt == seg.seq.add(1)
            &&& n.tcb.snd_una == m.tcb.snd_una && n.tcb.snd_nxt == m.tcb.snd_nxt
            &&& negotiated(
                n.tcb,
                m.tcb.params,
                seg.opts.mss,
                seg.opts.window_scale,
                seg.opts.sack_permitted,
                m.tcb.peer_mss as int,
            )
            &&& n.next_planned(now).1 matches Some(p) && p.flags.syn() && p.seq == m.tcb.iss
                && p.ack == Some(seg.seq.add(1))
        }),
{
    lemma_flag_bits();
    reveal(ConnModel::syn_sent_arrived);
    reveal(Tcb::syn_seen);
    reveal(Tcb::syn_planned);
    reveal(Tcb::rexmit_settled);
    reveal(Tcb::persist_settled);
}

/// The acknowledgment of our SYN completes a connection that the peer opened.
pub proof fn third_leg_establishes(m: ConnModel, now: Instant, seg: Segment, cap: int)
    requires
        m.inv(),
        seg.legal(),
        m.tcb.state is SynReceived,
        m.tcb.peer_fin is None,
        m.tcb.snd_nxt == m.tcb.iss.add(1),
        m.open_window() > 0,
        seg.flags.ack() && !seg.flags.syn() && !seg.flags.rst() && !seg.flags.fin(),
        seg.seq == m.tcb.rcv_nxt,
        seg.payload.len() == 0,
        seg.ack == m.tcb.iss.add(1),
    ensures
        ({
            let (n, f) = m.arrived(now, seg, cap, FxModel::empty());
            &&& n.tcb.state is Established
            &&& f.events.len() >= 1 && f.events[0] == ConnEvent::Connected
            &&& f.reset_reply is None
            &&& n.tcb.snd_una == seg.ack && n.tcb.syn_acked
            &&& n.tcb.rcv_nxt == m.tcb.rcv_nxt
            &&& n.tcb.timers.rexmit is None
        }),
{
    let fx = FxModel::empty();
    let e = m.established();
    let f0 = fx.with_event(ConnEvent::Connected);
    assert(m.tcb.snd_una == m.tcb.iss && !m.tcb.syn_acked && m.tcb.fin_seq is None) by {
        reveal(ConnModel::inv);
    }
    assert(m.sync_arrived(now, seg, cap, fx) == e.ack_arrived(now, seg, cap, f0)) by {
        reveal(ConnModel::sync_arrived);
    }
    assert(e.tcb.ack_in_range(seg.ack)) by {
        lemma_inv_scalars(m);
    }
    let (s, learned) = e.sacked(seg.opts.sack_blocks);
    let a0 = s.ack_absorbed(now, seg.ack);
    let (a, f) = a0.unblocked(cap, f0);
    assert(s.ack_processed(now, seg, learned, cap, f0) == (a, f)) by {
        reveal(ConnModel::ack_processed);
        reveal(ConnModel::newly_acked);
    }
    assert(a0.tcb.snd_una == seg.ack && a0.tcb.syn_acked && a0.tcb.rcv_nxt == m.tcb.rcv_nxt
        && a0.tcb.state is Established && a0.tcb.peer_fin is None && a0.tcb.snd_nxt
        == m.tcb.snd_nxt) by {
        reveal(ConnModel::ack_absorbed);
        reveal(ConnModel::ack_advanced);
        reveal(Tcb::ack_timed);
        reveal(Tcb::recovery_acked);
    }
    assert(a.tcb == (Tcb { app_blocked: a.tcb.app_blocked, ..a0.tcb }) && f.events.len() >= 1
        && f.events[0] == ConnEvent::Connected && f.reset_reply is None) by {
        reveal(ConnModel::unblocked);
    }
    let w = a.with(a.tcb.window_updated(seg, m.tcb.snd_una));
    assert(w.tcb.snd_una == a.tcb.snd_una && w.tcb.syn_acked && w.tcb.rcv_nxt == a.tcb.rcv_nxt
        && w.tcb.state == a.tcb.state && w.tcb.peer_fin is None && w.tcb.snd_nxt
        == a.tcb.snd_nxt) by {
        reveal(Tcb::window_updated);
    }
    assert(w.text_arrived(now, seg.seq, seg.payload, f) == (w, f)) by {
        reveal(ConnModel::text_arrived);
    }
    assert(w.fin_recorded(seg, m.open_window()) == w) by {
        reveal(Tcb::fin_noted);
        reveal(ConnModel::cut_at_fin);
    }
    assert(w.fin_arrived(now, f) == (w, f)) by {
        reveal(ConnModel::fin_arrived);
    }
    assert(e.ack_arrived(now, seg, cap, f0) == (w, f)) by {
        reveal(ConnModel::ack_arrived);
    }
    reveal(Tcb::rexmit_settled);
    reveal(Tcb::persist_settled);
}

/// While we wait for the answer to our SYN, an acknowledgment of something that
/// we did not send is answered by a reset at that number, and changes nothing.
pub proof fn wrong_acknowledgment_is_reset(m: ConnModel, now: Instant, seg: Segment, cap: int)
    requires
        m.inv(),
        m.tcb.state is SynSent,
        m.tcb.snd_nxt == m.tcb.iss.add(1),
        seg.flags.ack() && !seg.flags.rst(),
        seg.ack != m.tcb.iss.add(1),
        seg.ack != m.tcb.iss.add(0x8000_0000) && seg.ack != m.tcb.iss.add(0x8000_0001),
    ensures
        ({
            let (n, f) = m.arrived(now, seg, cap, FxModel::empty());
            &&& n.tcb.state is SynSent
            &&& f.events.len() == 0
            &&& f.reset_reply == Some(ResetReply { seq: seg.ack, ack: None })
            &&& n.tcb.snd_una == m.tcb.snd_una && n.tcb.rcv_nxt == m.tcb.rcv_nxt
        }),
{
    reveal(ConnModel::syn_sent_arrived);
    reveal(Tcb::rexmit_settled);
    reveal(Tcb::persist_settled);
}

/// A reset that acknowledges our SYN refuses the attempt; one that does not is
/// ignored.
pub proof fn only_an_acknowledging_reset_refuses(m: ConnModel, now: Instant, seg: Segment, cap: int)
    requires
        m.inv(),
        m.tcb.state is SynSent,
        !m.tcb.passive,
        m.tcb.snd_nxt == m.tcb.iss.add(1),
        seg.flags.rst(),
    ensures
        ({
            let (n, f) = m.arrived(now, seg, cap, FxModel::empty());
            &&& seg.flags.ack() && seg.ack == m.tcb.iss.add(1) ==> {
                &&& n.tcb.state is Closed
                &&& n.tcb.close_reason == Some(CloseReason::Refused)
                &&& f.events == seq![ConnEvent::Closed(CloseReason::Refused)]
            }
            &&& !seg.flags.ack() ==> n.tcb.state is SynSent && f == FxModel::empty()
            &&& f.reset_reply is None
        }),
{
    assert(FxModel::empty().with_event(ConnEvent::Closed(CloseReason::Refused)).events =~= seq![
        ConnEvent::Closed(CloseReason::Refused),
    ]);
    reveal(ConnModel::syn_sent_arrived);
    reveal(Tcb::rexmit_settled);
    reveal(Tcb::persist_settled);
}

/// A SYN that is to be sent again is the same SYN: the same number, the same
/// offers.
pub proof fn repeated_syn_is_the_same(m: ConnModel, now: Instant)
    requires
        m.inv(),
        m.tcb.state is SynSent,
        m.tcb.syn_pending,
    ensures
        m.next_planned(now).1 matches Some(p) && {
            &&& p.flags.syn() && !p.flags.fin()
            &&& p.seq == m.tcb.iss
            &&& p.ack is None
            &&& p.payload_len == 0
            &&& p.syn_opts matches Some(o) && o.mss == m.tcb.params.local_mss && o.wscale
                == m.tcb.params.offer_wscale && o.sack_permitted == m.tcb.params.offer_sack
        },
        !m.next_planned(now).0.tcb.syn_pending,
{
    lemma_flag_bits();
    reveal(Tcb::syn_planned);
    reveal(Tcb::rexmit_settled);
    reveal(Tcb::persist_settled);
}

} // verus!
