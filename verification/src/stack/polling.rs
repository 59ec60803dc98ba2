//! What a poll does to the stack, and the datagrams it sends.
use super::host::{
    ctl_ok, lemma_ok_frame, lemma_path_ok, lemma_queued_ok, lemma_real_actions, lemma_reconciled_ok,
    lemma_with_conn_ok, path_ok, queueable, StackCore,
};
use super::model::{counted, CoreModel, CtlSegment, EchoReply, StackStats};
use crate::tcp::conn::output::PlanModel;
use crate::tcp::conn::identity::timers_keep_path;
use crate::tcp::conn::{ConnEvent, ConnModel, FxModel, Tcb, Timers};
use crate::time::Instant;
use crate::types::{Action, IpAddr, TimerKind};
use crate::util::ring_at;
use crate::wire::icmp::{message_v4, message_v6};
use crate::wire::ipv4::Ipv4Emit;
use crate::wire::tcp::{EmitModel, OptionsModel, TcpFlags};
use crate::wire::{icmp, ipv6, proto, splice};
use vstd::prelude::*;

verus! {

/// An IPv4 datagram that is not a fragment.
pub open spec fn datagram_v4(
    src: [u8; 4],
    dst: [u8; 4],
    protocol: u8,
    ttl: u8,
    ident: u16,
    df: bool,
    body: Seq<u8>,
) -> Seq<u8> {
    Ipv4Emit {
        src,
        dst,
        proto: protocol,
        ttl,
        ident,
        dont_frag: df,
        more_frags: false,
        frag_offset: 0,
    }.header(body.len() as int) + body
}

/// An IPv6 datagram.
pub open spec fn datagram_v6(
    src: [u8; 16],
    dst: [u8; 16],
    next: u8,
    ttl: u8,
    body: Seq<u8>,
) -> Seq<u8> {
    ipv6::header(src, dst, next, ttl, body.len() as int) + body
}

/// The datagram that carries a TCP segment. With IPv4 it must not be
/// fragmented: it doubles as a path-MTU probe (RFC 1191 section 3).
#[verifier::opaque]
pub open spec fn tcp_datagram(
    src: IpAddr,
    dst: IpAddr,
    e: EmitModel,
    payload: Seq<u8>,
    ttl: u8,
    ident: u16,
) -> Seq<u8> {
    let seg = e.segment(src, dst, payload);
    match (src, dst) {
        (IpAddr::V4(s), IpAddr::V4(d)) => datagram_v4(s, d, proto::TCP, ttl, ident, true, seg),
        (IpAddr::V6(s), IpAddr::V6(d)) => datagram_v6(s, d, proto::TCP, ttl, seg),
        _ => Seq::empty(),
    }
}

/// The segment that a reset is.
pub open spec fn ctl_segment(c: CtlSegment) -> EmitModel {
    EmitModel {
        src_port: c.local.port,
        dst_port: c.remote.port,
        seq: c.seq.0,
        ack: match c.ack {
            Some(a) => a.0,
            None => 0,
        },
        flags: if c.ack is Some {
            TcpFlags(0x14)
        } else {
            TcpFlags(0x04)
        },
        window: 0,
        options: OptionsModel::empty(),
    }
}

/// The segment that a plan of a connection is.
pub open spec fn plan_segment(t: Tcb, p: PlanModel) -> EmitModel {
    EmitModel {
        src_port: t.local.port,
        dst_port: t.remote.port,
        seq: p.seq.0,
        ack: match p.ack {
            Some(a) => a.0,
            None => 0,
        },
        flags: if p.ack is Some {
            p.flags.union(TcpFlags(0x10))
        } else {
            p.flags
        },
        window: p.window,
        options: OptionsModel {
            mss: match p.syn_opts {
                Some(o) => Some(o.mss),
                None => None,
            },
            window_scale: match p.syn_opts {
                Some(o) => o.wscale,
                None => None,
            },
            sack_permitted: match p.syn_opts {
                Some(o) => o.sack_permitted,
                None => false,
            },
            sack_blocks: p.sack_blocks,
        },
    }
}

/// The text of a plan.
pub open spec fn plan_text(c: ConnModel, p: PlanModel) -> Seq<u8> {
    if p.payload_len == 0 {
        Seq::empty()
    } else {
        c.snd.subrange(p.payload_off as int, p.payload_off + p.payload_len)
    }
}

impl CoreModel {
    /// With a transmitted datagram counted.
    pub open spec fn tx_counted(self) -> CoreModel {
        CoreModel {
            stats: StackStats { tx_datagrams: counted(self.stats.tx_datagrams), ..self.stats },
            ..self
        }
    }

    /// With a reset sent, and its datagram.
    #[verifier::opaque]
    pub open spec fn ctl_sent(self, c: CtlSegment) -> (CoreModel, Seq<u8>) {
        let (m, ident) = self.ident_drawn();
        (
            m.tx_counted(),
            tcp_datagram(
                c.local.ip,
                c.remote.ip,
                ctl_segment(c),
                Seq::empty(),
                self.cfg.ttl,
                ident,
            ),
        )
    }

    /// The body of an echo reply.
    pub open spec fn echo_body(self, e: EchoReply) -> Seq<u8> {
        self.echo_buf.subrange(0, e.len as int)
    }

    /// With an echo reply sent, and its datagram.
    #[verifier::opaque]
    pub open spec fn echo_sent(self, e: EchoReply) -> (CoreModel, Seq<u8>) {
        let body = self.echo_body(e);
        let (m, d) = match (e.local, e.remote) {
            (IpAddr::V4(l), IpAddr::V4(r)) => {
                let (n, ident) = self.ident_drawn();
                (
                    n,
                    datagram_v4(
                        l,
                        r,
                        proto::ICMP,
                        self.cfg.ttl,
                        ident,
                        false,
                        message_v4(icmp::v4::ECHO_REPLY, 0, e.rest, body),
                    ),
                )
            },
            (IpAddr::V6(l), IpAddr::V6(r)) => (
                self,
                datagram_v6(
                    l,
                    r,
                    proto::ICMPV6,
                    self.cfg.ttl,
                    message_v6(icmp::v6::ECHO_REPLY, 0, e.rest, body, l, r),
                ),
            ),
            _ => (self, Seq::empty()),
        };
        let t = m.tx_counted();
        (
            CoreModel { stats: StackStats { echo_tx: counted(t.stats.echo_tx), ..t.stats }, ..t },
            d,
        )
    }

    /// With a planned segment of the connection in slot `idx` sent, and its
    /// datagram. The slot keeps the turn, and its timers are brought in line.
    #[verifier::opaque]
    pub open spec fn plan_sent(self, now: Instant, idx: int, p: PlanModel) -> (
        CoreModel,
        Seq<u8>,
    ) {
        let (m, ident) = CoreModel { poll_cursor: idx as nat, ..self }.ident_drawn();
        let c = m.conns[idx]->0;
        (
            m.tx_counted().reconciled(now, idx),
            tcp_datagram(
                c.tcb.local.ip,
                c.tcb.remote.ip,
                plan_segment(c.tcb, p),
                plan_text(c, p),
                self.cfg.ttl,
                ident,
            ),
        )
    }

    /// The first connection in turn, from step `i` on and before step `n`,
    /// that has something to send sends it.
    pub open spec fn conns_polled(self, now: Instant, i: nat, n: nat) -> (
        CoreModel,
        Option<Seq<u8>>,
    )
        decreases n - i,
    {
        if i >= n {
            (self, None)
        } else {
            let idx = ring_at(self.poll_cursor as int, i as int, self.conns.len() as int);
            match self.conns[idx] {
                None => self.conns_polled(now, i + 1, n),
                Some(c) => {
                    let (after, plan) = c.next_planned(now);
                    let m = self.with_conn(idx, Some(after));
                    match plan {
                        None => m.conns_polled(now, i + 1, n),
                        Some(p) => {
                            let (t, d) = m.plan_sent(now, idx, p);
                            (t, Some(d))
                        },
                    }
                },
            }
        }
    }

    /// What a poll hands out before it looks at timers: the wish for entropy,
    /// a queued action, a reset, an echo reply, or a segment of a connection;
    /// with the datagram, if one is to be transmitted.
    #[verifier::opaque]
    pub open spec fn drained(self, now: Instant) -> (CoreModel, Option<Action>, Option<Seq<u8>>) {
        if self.entropy_request_pending {
            (
                CoreModel { entropy_request_pending: false, ..self },
                Some(Action::RequestEntropy),
                None,
            )
        } else if self.actions.len() > 0 {
            (
                CoreModel { actions: self.actions.drop_first(), ..self },
                Some(self.actions[0]),
                None,
            )
        } else if self.ctl.len() > 0 {
            let (m, d) = CoreModel { ctl: self.ctl.drop_first(), ..self }.ctl_sent(self.ctl[0]);
            (m, Some(Action::Transmit { len: d.len() as usize }), Some(d))
        } else if self.echo is Some {
            let (m, d) = CoreModel { echo: None, ..self }.echo_sent(self.echo->0);
            (m, Some(Action::Transmit { len: d.len() as usize }), Some(d))
        } else {
            let (m, sent) = self.conns_polled(now, 0, self.conns.len());
            match sent {
                Some(d) => (m, Some(Action::Transmit { len: d.len() as usize }), Some(d)),
                None => (m, None, None),
            }
        }
    }

    // ----- Sweep -----

    /// With a `Connected` of the connection in slot `idx` offered.
    #[verifier::opaque]
    pub open spec fn connected_offered(self, idx: int) -> CoreModel {
        let c = self.conns[idx]->0;
        let (m, ok) = self.queued(Action::App(self.app_event(idx, ConnEvent::Connected)));
        if ok {
            m.with_conn(idx, Some(c.with(Tcb { reported: true, ..c.tcb })))
        } else {
            m
        }
    }

    /// With the `Connected` of the connection in slot `idx` offered again, if
    /// it is still owed.
    #[verifier::opaque]
    pub open spec fn reoffered(self, idx: int) -> CoreModel {
        if self.conns[idx]->0.connected_unreported() {
            self.connected_offered(idx)
        } else {
            self
        }
    }

    /// With the slot of a closed connection freed, once the runtime was told
    /// to cancel all its timers (under the handle that they were started
    /// under).
    #[verifier::opaque]
    pub open spec fn reaped(self, now: Instant, idx: int) -> CoreModel {
        let m = self.reconciled(now, idx);
        if m.emitted[idx] == Timers::idle() {
            CoreModel {
                conns: m.conns.update(idx, None),
                generations: m.generations.update(idx, m.generations[idx].wrapping_add(1)),
                ..m
            }
        } else {
            m
        }
    }

    /// With one slot swept: a closed connection is freed; of another one, the
    /// path estimate ages, the timers are recomputed, an owed `Connected` is
    /// offered again, and the runtime's timers are brought in line.
    #[verifier::opaque]
    pub open spec fn slot_swept(self, now: Instant, idx: int) -> CoreModel {
        match self.conns[idx] {
            None => self,
            Some(c) => if c.tcb.state is Closed {
                self.reaped(now, idx)
            } else {
                self.with_conn(
                    idx,
                    Some(c.path_aged(now).timers_updated(now)),
                ).reoffered(idx).reconciled(now, idx)
            },
        }
    }

    /// With the first `n` slots swept.
    pub open spec fn swept(self, now: Instant, n: nat) -> CoreModel
        decreases n,
    {
        if n == 0 {
            self
        } else {
            self.swept(now, (n - 1) as nat).slot_swept(now, n - 1)
        }
    }
}

/// A buffer after a poll: the datagram at its start, if there is one.
pub open spec fn buffer_after(tx: Seq<u8>, datagram: Option<Seq<u8>>) -> Seq<u8> {
    match datagram {
        Some(d) => splice(tx, 0, d),
        None => tx,
    }
}

/// Whether a transmission is asked for exactly if there is a datagram, which
/// then fills the first `len` bytes of the buffer.
pub open spec fn transmits(r: Option<Action>, datagram: Option<Seq<u8>>, tx: Seq<u8>) -> bool {
    match datagram {
        Some(d) => r == Some(Action::Transmit { len: d.len() as usize }) && d.len() <= tx.len()
            && tx.take(d.len() as int) == d,
        None => !(r matches Some(a) && a is Transmit),
    }
}

proof fn lemma_datagram_in_front(tx: Seq<u8>, datagram: Option<Seq<u8>>)
    ensures
        datagram matches Some(d) ==> (d.len() <= tx.len() ==> buffer_after(tx, datagram).take(
            d.len() as int,
        ) == d && buffer_after(tx, datagram).len() == tx.len()),
{
    if let Some(d) = datagram {
        if d.len() <= tx.len() {
            assert(buffer_after(tx, datagram).take(d.len() as int) =~= d);
        }
    }
}

proof fn lemma_popped_ok(m: CoreModel)
    requires
        m.ok(),
    ensures
        m.ctl.len() > 0 ==> ctl_ok(m.cfg, m.ctl[0]) && (CoreModel {
            ctl: m.ctl.drop_first(),
            ..m
        }).ok(),
        (CoreModel { entropy_request_pending: false, ..m }).ok(),
        m.actions.len() > 0 ==> queueable(m.actions[0]) && (CoreModel {
            actions: m.actions.drop_first(),
            ..m
        }).ok(),
        m.poll_cursor < m.conns.len(),
{
    reveal(CoreModel::ok);
    lemma_real_actions(m.actions, Action::RequestEntropy);
}

proof fn lemma_refreshed_path(m: CoreModel, now: Instant, idx: int)
    requires
        m.ok(),
        0 <= idx < m.conns.len(),
        m.conns[idx] is Some,
    ensures
        path_ok(m.cfg, m.conns[idx]->0.path_aged(now).timers_updated(now).tcb),
{
    lemma_path_ok(m, idx);
    timers_keep_path(m.conns[idx]->0.path_aged(now), now, TimerKind::Wait, FxModel::empty());
}

proof fn lemma_reoffered_ok(m: CoreModel, idx: int)
    requires
        m.ok(),
        0 <= idx < m.conns.len(),
        m.conns[idx] is Some,
    ensures
        m.reoffered(idx).ok(),
        m.reoffered(idx).conns.len() == m.conns.len(),
        m.reoffered(idx).cfg == m.cfg,
{
    reveal(CoreModel::reoffered);
    reveal(CoreModel::connected_offered);
    let a = Action::App(m.app_event(idx, ConnEvent::Connected));
    lemma_queued_ok(m, a);
    lemma_path_ok(m, idx);
    let c = m.conns[idx]->0;
    lemma_with_conn_ok(m.queued(a).0, idx, Some(c.with(Tcb { reported: true, ..c.tcb })));
}

proof fn lemma_reaped_ok(m: CoreModel, now: Instant, idx: int)
    requires
        m.ok(),
        0 <= idx < m.conns.len(),
    ensures
        m.reaped(now, idx).ok(),
        m.reaped(now, idx).conns.len() == m.conns.len(),
        m.reaped(now, idx).cfg == m.cfg,
{
    reveal(CoreModel::reaped);
    let r = m.reconciled(now, idx);
    lemma_reconciled_ok(m, now, idx);
    lemma_with_conn_ok(r, idx, None);
    assert(r.generations.len() == r.conns.len()) by {
        reveal(CoreModel::ok);
    }
    if r.emitted[idx] == Timers::idle() {
        lemma_ok_frame(r.with_conn(idx, None), m.reaped(now, idx));
    }
}

pub proof fn lemma_slot_swept_ok(m: CoreModel, now: Instant, idx: int)
    requires
        m.ok(),
        0 <= idx < m.conns.len(),
    ensures
        m.slot_swept(now, idx).ok(),
        m.slot_swept(now, idx).conns.len() == m.conns.len(),
        m.slot_swept(now, idx).cfg == m.cfg,
{
    reveal(CoreModel::slot_swept);
    if let Some(c) = m.conns[idx] {
        lemma_reaped_ok(m, now, idx);
        lemma_refreshed_path(m, now, idx);
        let n = Some(c.path_aged(now).timers_updated(now));
        lemma_with_conn_ok(m, idx, n);
        let w = m.with_conn(idx, n);
        lemma_reoffered_ok(w, idx);
        lemma_reconciled_ok(w.reoffered(idx), now, idx);
    }
}

impl<const CONNS: usize, const SND: usize, const RCV: usize> StackCore<CONNS, SND, RCV> {
    /// Everything that a poll hands out before it looks at timers. `tx` holds
    /// at least one MTU.
    pub fn poll_action_core(&mut self, now: Instant, tx: &mut [u8]) -> (r: Option<Action>)
        requires
            old(self).wf(),
            old(tx)@.len() >= old(self)@.cfg.mtu,
        ensures
            !(r matches Some(a) && a is Nothing),
            ({
                let (m, a, d) = old(self)@.drained(now);
                &&& final(self)@ == m
                &&& r == a
                &&& final(tx)@ == buffer_after(old(tx)@, d)
            }),
            old(self)@.drained(now).2 matches Some(d) ==> d.len() <= old(self)@.cfg.mtu,
            transmits(r, old(self)@.drained(now).2, final(tx)@),
            final(self).wf(),
    {
        proof {
            reveal(CoreModel::drained);
            lemma_popped_ok(self@);
            lemma_datagram_in_front(tx@, self@.drained(now).2);
        }
        if self.entropy_request_pending {
            self.entropy_request_pending = false;
            return Some(Action::RequestEntropy);
        }
        if let Some(a) = self.actions.pop_front() {
            return Some(a);
        }
        if let Some(c) = self.ctl.pop_front() {
            let len: usize = self.emit_ctl(&c, tx);
            return Some(Action::Transmit { len });
        }
        if let Some(e) = self.echo {
            let len: usize = self.emit_echo(e, tx);
            return Some(Action::Transmit { len });
        }
        match self.poll_conns(now, tx) {
            Some(len) => Some(Action::Transmit { len }),
            None => None,
        }
    }

    /// Connection transmissions, round-robin for inter-connection fairness; a
    /// connection with more to send keeps the cursor.
    fn poll_conns(&mut self, now: Instant, tx: &mut [u8]) -> (r: Option<usize>)
        requires
            old(self).wf(),
            old(tx)@.len() >= old(self)@.cfg.mtu,
        ensures
            ({
                let (m, d) = old(self)@.conns_polled(now, 0, CONNS as nat);
                &&& final(self)@ == m
                &&& match r {
                    Some(len) => {
                        &&& d is Some
                        &&& len == d->0.len()
                        &&& len <= old(self)@.cfg.mtu
                        &&& final(tx)@ == splice(old(tx)@, 0, d->0)
                    },
                    None => d is None && final(tx)@ == old(tx)@,
                }
            }),
            final(self).wf(),
    {
        let start: usize = self.poll_cursor;
        let mut i: usize = 0;
        proof {
            lemma_popped_ok(self@);
        }
        while i < CONNS
            invariant
                i <= CONNS,
                start < CONNS <= 256,
                self.wf(),
                self@.poll_cursor == start,
                self@.cfg == old(self)@.cfg,
                tx@ == old(tx)@,
                tx@.len() >= old(self)@.cfg.mtu,
                old(self)@.conns_polled(now, 0, CONNS as nat) == self@.conns_polled(
                    now,
                    i as nat,
                    CONNS as nat,
                ),
            decreases CONNS - i,
        {
            let idx: usize = if start + i < CONNS {
                start + i
            } else {
                start + i - CONNS
            };
            if self.conns.get(idx).is_some() {
                let ghost before = self@;
                proof {
                    lemma_path_ok(before, idx as int);
                }
                let plan = self.conns.next_segment(idx, now);
                proof {
                    lemma_with_conn_ok(before, idx as int, self@.conns[idx as int]);
                }
                if let Some(p) = plan {
                    let len: usize = self.emit_plan(now, idx, &p, tx);
                    return Some(len);
                }
            }
            i += 1;
        }
        None
    }

    /// Offer a shed `Connected` again, so the application eventually receives
    /// the handle.
    fn reoffer(&mut self, idx: usize)
        requires
            old(self).parts_wf(),
            idx < CONNS,
            old(self)@.conns[idx as int] is Some,
        ensures
            final(self)@ == old(self)@.reoffered(idx as int),
            final(self).parts_wf(),
    {
        proof {
            reveal(CoreModel::reoffered);
        }
        let owed = match self.conns.get(idx) {
            Some(c) => c.needs_connected_event(),
            None => false,
        };
        if owed {
            self.offer_connected(idx);
        }
    }

    fn offer_connected(&mut self, idx: usize)
        requires
            old(self).parts_wf(),
            idx < CONNS,
            old(self)@.conns[idx as int] is Some,
        ensures
            final(self)@ == old(self)@.connected_offered(idx as int),
            final(self).parts_wf(),
    {
        proof {
            reveal(CoreModel::connected_offered);
        }
        let app = self.app_event(idx, ConnEvent::Connected);
        if self.queue_action(Action::App(app)) {
            self.conns.set_reported(idx, true);
        }
    }

    /// Free the slot of a closed connection. Its timers are cancelled before
    /// that, under the generation the runtime armed them under. If a cancel is
    /// shed, the slot stays occupied and the next sweep retries.
    fn reap(&mut self, now: Instant, idx: usize)
        requires
            old(self).parts_wf(),
            idx < CONNS,
        ensures
            final(self)@ == old(self)@.reaped(now, idx as int),
            final(self).parts_wf(),
    {
        proof {
            reveal(CoreModel::reaped);
        }
        self.reconcile_conn_timers(now, idx);
        if self.emitted_conn_timers[idx] == Timers::none() {
            self.conns.put(idx, None);
            self.generations[idx] = self.generations[idx].wrapping_add(1);
        }
    }

    fn sweep_slot(&mut self, now: Instant, idx: usize)
        requires
            old(self).wf(),
            idx < CONNS,
        ensures
            final(self)@ == old(self)@.slot_swept(now, idx as int),
            final(self).wf(),
    {
        proof {
            reveal(CoreModel::slot_swept);
            lemma_slot_swept_ok(self@, now, idx as int);
        }
        let closed = match self.conns.get(idx) {
            None => {
                return;
            },
            Some(c) => c.is_closed(),
        };
        if closed {
            self.reap(now, idx);
        } else {
            self.conns.refresh(idx, now);
            self.reoffer(idx);
            self.reconcile_conn_timers(now, idx);
        }
    }

    /// Free dead slots, age estimates and reconcile timers.
    pub fn sweep_conns(&mut self, now: Instant)
        requires
            old(self).wf(),
        ensures
            final(self)@ == old(self)@.swept(now, CONNS as nat),
            final(self).wf(),
    {
        let mut idx: usize = 0;
        while idx < CONNS
            invariant
                idx <= CONNS,
                self.wf(),
                self@ == old(self)@.swept(now, idx as nat),
            decreases CONNS - idx,
        {
            self.sweep_slot(now, idx);
            idx += 1;
        }
    }
}

} // verus!
