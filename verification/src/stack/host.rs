//! The stack without its reassembler: lookup, bookkeeping, application calls
//! and timers.
use super::model::{
    counted, destination_tag, ephemeral_at, first_of_family, free_port, overhead, CoreModel,
    CtlSegment, EchoReply, StackStats, EPHEMERAL_LO, EPHEMERAL_SPAN, V4_OVERHEAD, V6_OVERHEAD,
};
use super::table::ConnTable;
use crate::config::{
    Config, ACTION_QUEUE_SIZE, CTL_QUEUE_SIZE, ECHO_BUF_SIZE, MAX_LISTENERS, PMTU_CACHE_SIZE,
};
use crate::ip::pmtu::{estimate_within_link, PmtuCache};
use crate::ip::{IPV4_MIN_PMTU, IPV6_MIN_PMTU};
use crate::tcp::conn::model::MAX_CAPACITY;
use crate::tcp::conn::{
    ConnEvent, ConnModel, ConnParams, Connection, Effects, FxModel, ResetReply, Tcb, Timers,
};
use crate::tcp::isn::{domain, IsnGenerator};
use crate::time::{Duration, Instant};
use crate::types::{Action, AppEvent, Error, IpAddr, SocketAddr, SocketId, TimerKey, TimerKind};
use crate::util::{BoundedQueue, BoundedVec};
use crate::wire::read_u32;
use vstd::prelude::*;

verus! {

/// Everything in [`crate::Stack`] except the reassembler: the part that
/// delivery of a payload touches. The split lets a reassembled payload be
/// borrowed from the reassembler while this is changed.
pub struct StackCore<const CONNS: usize, const SND: usize, const RCV: usize> {
    /// Configuration.
    pub cfg: Config,
    /// Connections by slot.
    pub conns: ConnTable<CONNS, SND, RCV>,
    /// How often each slot was freed.
    pub generations: [u32; CONNS],
    /// Ports listened on.
    pub listeners: BoundedVec<u16, MAX_LISTENERS>,
    /// Keyed hashing, once seeded.
    pub isn: IsnGenerator,
    /// Entropy was not asked for yet.
    pub entropy_request_pending: bool,
    /// Path-MTU cache.
    pub pmtu: PmtuCache<PMTU_CACHE_SIZE>,
    /// Actions waiting for the runtime.
    pub actions: BoundedQueue<Action, ACTION_QUEUE_SIZE>,
    /// Resets waiting to be sent.
    pub ctl: BoundedQueue<CtlSegment, CTL_QUEUE_SIZE>,
    /// Echo reply waiting to be sent.
    pub echo: Option<EchoReply>,
    /// Its body.
    pub echo_buf: [u8; ECHO_BUF_SIZE],
    /// Timer state as last told to the runtime, per slot.
    pub emitted_conn_timers: [Timers; CONNS],
    /// RFC 5961 section 10 challenge-ACK budget.
    pub challenge_tokens: u8,
    /// When the budget is refilled.
    pub challenge_refill_at: Instant,
    /// Monotone counter feeding the keyed-hash IPv4 ID, wide enough that the
    /// hashed sequence does not repeat within any realistic observation
    /// window.
    pub ip_ident: u64,
    /// Counter behind the choice of ephemeral ports.
    pub next_ephemeral: u16,
    /// Slot that may send next.
    pub poll_cursor: usize,
    /// Counters.
    pub stats: StackStats,
}

impl<const CONNS: usize, const SND: usize, const RCV: usize> View for StackCore<CONNS, SND, RCV> {
    type V = CoreModel;

    open spec fn view(&self) -> CoreModel {
        CoreModel {
            cfg: self.cfg,
            snd_cap: SND as nat,
            rcv_cap: RCV as nat,
            conns: self.conns@,
            generations: self.generations@,
            listeners: self.listeners@,
            key: self.isn.key,
            entropy_request_pending: self.entropy_request_pending,
            pmtu: self.pmtu.entries@,
            actions: self.actions@,
            ctl: self.ctl@,
            echo: self.echo,
            echo_buf: self.echo_buf@,
            emitted: self.emitted_conn_timers@,
            challenge_tokens: self.challenge_tokens,
            challenge_refill_at: self.challenge_refill_at,
            ip_ident: self.ip_ident,
            next_ephemeral: self.next_ephemeral,
            poll_cursor: self.poll_cursor as nat,
            stats: self.stats,
        }
    }
}

/// Whether a connection's endpoints and path fit the stack: one family, a
/// local address of ours, and full segments that fit the link.
pub open spec fn path_ok(cfg: Config, t: Tcb) -> bool {
    &&& t.local.ip is V4 <==> t.remote.ip is V4
    &&& cfg.owns(t.local.ip)
    &&& t.pmtu_mss + overhead(t.remote.ip) <= cfg.mtu
    &&& t.params.pmtu_mss + overhead(t.remote.ip) <= cfg.mtu
}

/// Whether a reset is between two addresses of one family, from one of ours.
pub open spec fn ctl_ok(cfg: Config, c: CtlSegment) -> bool {
    &&& c.local.ip is V4 <==> c.remote.ip is V4
    &&& cfg.owns(c.local.ip)
}

impl CoreModel {
    /// Every connection's path is in order.
    pub open spec fn paths_ok(self) -> bool {
        forall|i: int|
            0 <= i < self.conns.len() && (#[trigger] self.conns[i]) is Some ==> path_ok(
                self.cfg,
                self.conns[i]->0.tcb,
            )
    }

    /// Every waiting reset is in order.
    pub open spec fn ctls_ok(self) -> bool {
        forall|i: int| 0 <= i < self.ctl.len() ==> ctl_ok(
            self.cfg,
            #[trigger] self.ctl[i],
        )
    }

    /// A waiting echo reply is between two addresses of one family, from one
    /// of ours, and fits the link.
    pub open spec fn echo_ok(self) -> bool {
        self.echo matches Some(e) ==> {
            &&& e.local is V4 <==> e.remote is V4
            &&& self.cfg.owns(e.local)
            &&& e.len <= ECHO_BUF_SIZE
            &&& e.len + (if e.local is V4 {
                28int
            } else {
                48
            }) <= self.cfg.mtu
        }
    }

    /// The invariant of the stack without its reassembler.
    #[verifier::opaque]
    pub open spec fn ok(self) -> bool {
        &&& self.cfg.sane()
        &&& 1 <= self.conns.len() <= 256
        &&& self.generations.len() == self.conns.len()
        &&& self.emitted.len() == self.conns.len()
        &&& self.poll_cursor < self.conns.len()
        &&& self.echo_buf.len() == ECHO_BUF_SIZE
        &&& self.paths_ok()
        &&& self.ctls_ok()
        &&& self.echo_ok()
        &&& real_actions(self.actions)
    }
}

/// Whether an action may wait in the queue: it asks for something, and not for
/// a transmission, which is never queued (its datagram lies in the buffer of the
/// poll that hands it out).
pub open spec fn queueable(a: Action) -> bool {
    !(a is Nothing) && !(a is Transmit)
}

/// Only such actions are queued.
#[verifier::opaque]
pub open spec fn real_actions(actions: Seq<Action>) -> bool {
    forall|i: int| 0 <= i < actions.len() ==> queueable(#[trigger] actions[i])
}

/// Queueing an action, and taking the first one out, keep it so.
pub proof fn lemma_real_actions(actions: Seq<Action>, a: Action)
    requires
        real_actions(actions),
    ensures
        queueable(a) ==> real_actions(actions.push(a)),
        actions.len() > 0 ==> real_actions(actions.drop_first()) && queueable(actions[0]),
{
    reveal(real_actions);
    assert forall|i: int| queueable(a) && 0 <= i < actions.push(a).len() implies queueable(
        #[trigger] actions.push(a)[i],
    ) by {
        if i < actions.len() {
            assert(actions.push(a)[i] == actions[i]);
        }
    }
    if actions.len() > 0 {
        assert forall|i: int| 0 <= i < actions.drop_first().len() implies queueable(
            #[trigger] actions.drop_first()[i],
        ) by {
            assert(actions.drop_first()[i] == actions[i + 1]);
        }
    }
}

/// A change of one connection that keeps its path, and of anything that the
/// invariant does not speak of, keeps the invariant.
pub proof fn lemma_ok_frame(a: CoreModel, b: CoreModel)
    requires
        a.ok(),
        b.cfg == a.cfg,
        b.conns == a.conns,
        b.generations.len() == a.generations.len(),
        b.emitted.len() == a.emitted.len(),
        b.poll_cursor == a.poll_cursor,
        b.ctl == a.ctl,
        b.echo == a.echo,
        b.echo_buf == a.echo_buf,
        real_actions(a.actions) ==> real_actions(b.actions),
    ensures
        b.ok(),
{
    reveal(CoreModel::ok);
}

/// A connection put into a slot keeps the invariant, if its path is in order.
pub proof fn lemma_with_conn_ok(m: CoreModel, idx: int, c: Option<ConnModel>)
    requires
        m.ok(),
        0 <= idx < m.conns.len(),
        c matches Some(x) ==> path_ok(m.cfg, x.tcb),
    ensures
        m.with_conn(idx, c).ok(),
        m.with_conn(idx, c).conns.len() == m.conns.len(),
{
    reveal(CoreModel::ok);
}

/// The path of a connection in a slot is in order.
pub proof fn lemma_path_ok(m: CoreModel, idx: int)
    requires
        m.ok(),
        0 <= idx < m.conns.len(),
    ensures
        m.conns[idx] matches Some(c) ==> path_ok(m.cfg, c.tcb),
{
    reveal(CoreModel::ok);
}

pub proof fn lemma_queued_ok(m: CoreModel, a: Action)
    requires
        m.ok(),
        queueable(a),
    ensures
        m.queued(a).0.ok(),
        m.queued(a).0.conns == m.conns,
        m.queued(a).0.cfg == m.cfg,
{
    assert(real_actions(m.actions)) by {
        reveal(CoreModel::ok);
    }
    lemma_real_actions(m.actions, a);
    lemma_ok_frame(m, m.queued(a).0);
}

pub proof fn lemma_reset_queued_ok(m: CoreModel, c: CtlSegment)
    requires
        m.ok(),
        ctl_ok(m.cfg, c),
    ensures
        m.reset_queued(c).ok(),
        m.reset_queued(c).conns == m.conns,
        m.reset_queued(c).cfg == m.cfg,
{
    reveal(CoreModel::ok);
}

pub proof fn lemma_token_taken_ok(m: CoreModel, now: Instant)
    requires
        m.ok(),
    ensures
        m.token_taken(now).0.ok(),
        m.token_taken(now).0.conns == m.conns,
        m.token_taken(now).0.cfg == m.cfg,
{
    reveal(CoreModel::token_taken);
    lemma_ok_frame(m, m.token_taken(now).0);
}

proof fn lemma_told_ok(m: CoreModel, idx: int, ev: ConnEvent)
    requires
        m.ok(),
        0 <= idx < m.conns.len(),
    ensures
        m.told(idx, ev).ok(),
        m.told(idx, ev).conns.len() == m.conns.len(),
        m.told(idx, ev).cfg == m.cfg,
        m.conns[idx] is Some ==> m.told(idx, ev).conns[idx] is Some,
{
    reveal(CoreModel::told);
    let (q, ok) = m.queued(Action::App(m.app_event(idx, ev)));
    lemma_queued_ok(m, Action::App(m.app_event(idx, ev)));
    if !ok && ev is Connected && q.conns[idx] is Some {
        let c = q.conns[idx]->0;
        lemma_path_ok(q, idx);
        lemma_with_conn_ok(q, idx, Some(c.with(Tcb { reported: false, ..c.tcb })));
    }
}

pub proof fn lemma_told_all_ok(m: CoreModel, idx: int, evs: Seq<ConnEvent>)
    requires
        m.ok(),
        0 <= idx < m.conns.len(),
    ensures
        m.told_all(idx, evs).ok(),
        m.told_all(idx, evs).conns.len() == m.conns.len(),
        m.told_all(idx, evs).cfg == m.cfg,
    decreases evs.len(),
{
    if evs.len() > 0 {
        lemma_told_all_ok(m, idx, evs.drop_last());
        lemma_told_ok(m.told_all(idx, evs.drop_last()), idx, evs.last());
    }
}

pub proof fn lemma_challenged_ok(m: CoreModel, now: Instant, idx: int)
    requires
        m.ok(),
        0 <= idx < m.conns.len(),
    ensures
        m.challenged(now, idx).ok(),
        m.challenged(now, idx).conns.len() == m.conns.len(),
        m.challenged(now, idx).cfg == m.cfg,
{
    reveal(CoreModel::challenged);
    let (t, ok) = m.token_taken(now);
    lemma_token_taken_ok(m, now);
    let n = CoreModel {
        stats: StackStats {
            challenges_granted: counted(t.stats.challenges_granted),
            ..t.stats
        },
        ..t
    };
    lemma_ok_frame(t, n);
    lemma_path_ok(n, idx);
    if let Some(c) = n.conns[idx] {
        lemma_with_conn_ok(n, idx, Some(c.with(c.tcb.ack_now())));
    }
    if !ok {
        lemma_ok_frame(t, m.challenged(now, idx));
    }
}

pub proof fn lemma_effects_ok(m: CoreModel, now: Instant, idx: int, fx: FxModel)
    requires
        m.ok(),
        0 <= idx < m.conns.len(),
    ensures
        m.effects(now, idx, fx).ok(),
        m.effects(now, idx, fx).conns.len() == m.conns.len(),
        m.effects(now, idx, fx).cfg == m.cfg,
{
    let a = if fx.wants_challenge {
        lemma_challenged_ok(m, now, idx);
        m.challenged(now, idx)
    } else {
        m
    };
    lemma_path_ok(a, idx);
    let b = match (fx.reset_reply, a.conns[idx]) {
        (Some(r), Some(c)) => {
            let s = CtlSegment {
                local: c.tcb.local,
                remote: c.tcb.remote,
                seq: r.seq,
                ack: r.ack,
            };
            lemma_reset_queued_ok(a, s);
            a.reset_queued(s)
        },
        _ => a,
    };
    lemma_told_all_ok(b, idx, fx.events);
}

impl<const CONNS: usize, const SND: usize, const RCV: usize> StackCore<CONNS, SND, RCV> {
    /// Well-formedness of the containers, and the limits of the capacities.
    pub open spec fn parts_wf(&self) -> bool {
        &&& self.cfg.local_addrs.wf()
        &&& self.conns.wf()
        &&& self.listeners.wf()
        &&& self.actions.wf()
        &&& self.ctl.wf()
        &&& 1 <= CONNS <= 256
        &&& 0 < SND <= MAX_CAPACITY
        &&& 0 < RCV <= MAX_CAPACITY
    }

    /// Well-formedness: the containers', and the invariant of the model.
    pub open spec fn wf(&self) -> bool {
        &&& self.parts_wf()
        &&& self@.ok()
    }

    /// Queue an action for the runtime. Returns false (and counts the shed)
    /// when the queue is full, so callers can leave retryable state behind.
    pub fn queue_action(&mut self, action: Action) -> (r: bool)
        requires
            old(self).parts_wf(),
        ensures
            (final(self)@, r) == old(self)@.queued(action),
            final(self).parts_wf(),
    {
        proof {
            self.actions.lemma_len_bounded();
        }
        if self.actions.is_full() {
            self.stats = StackStats {
                actions_shed: self.stats.actions_shed.saturating_add(1),
                ..self.stats
            };
            return false;
        }
        let n: usize = self.actions.len() + 1;
        let _ = self.actions.push_back(action);
        let actions_peak: u16 = if self.stats.actions_peak as usize > n {
            self.stats.actions_peak
        } else {
            n as u16
        };
        self.stats = StackStats { actions_peak, ..self.stats };
        true
    }

    /// Queue a reset, and count it if it was queued.
    pub fn queue_ctl(&mut self, c: CtlSegment)
        requires
            old(self).parts_wf(),
        ensures
            final(self)@ == old(self)@.reset_queued(c),
            final(self).parts_wf(),
    {
        if !self.ctl.is_full() {
            let _ = self.ctl.push_back(c);
            self.stats = StackStats { rst_tx: self.stats.rst_tx.saturating_add(1), ..self.stats };
        }
    }

    /// The keyed hash of a value for one purpose, once there is a secret.
    fn keyed_hash(&self, domain: u8, value: u64) -> (r: Option<u64>)
        ensures
            r == self@.hashed(domain, value),
    {
        proof {
            reveal(CoreModel::hashed);
        }
        self.isn.keyed_hash(domain, value)
    }

    fn challenge_budget(&self, now: Instant) -> (r: u8)
        ensures
            r == self@.token_budget(now),
    {
        let cap: u8 = self.cfg.challenge_acks_per_sec;
        match self.keyed_hash(domain::CHALLENGE_ACK, now.as_micros() / 1_000_000) {
            Some(h) => {
                let half: u64 = cap as u64 / 2 + 1;
                let jitter: u64 = h % half;
                let left: u8 = cap.saturating_sub(jitter as u8);
                if left > 1 {
                    left
                } else {
                    1
                }
            },
            None => if cap > 1 {
                cap
            } else {
                1
            },
        }
    }

    /// RFC 5961 section 10: token-bucket limit on challenge ACKs.
    ///
    /// The per-second budget is keyed-hash randomized in `[cap/2, cap]`: a
    /// fixed, global, deterministic cap is a side channel, as an off-path
    /// attacker with one connection of their own can count returned challenge
    /// ACKs to learn whether a spoofed probe consumed a token.
    pub fn take_challenge_token(&mut self, now: Instant) -> (r: bool)
        requires
            old(self).parts_wf(),
        ensures
            (final(self)@, r) == old(self)@.token_taken(now),
            final(self).parts_wf(),
    {
        proof {
            reveal(CoreModel::token_taken);
        }
        // A cap of 0 disables challenge ACKs and closed-port RSTs entirely
        // (silent-drop policy).
        if self.cfg.challenge_acks_per_sec == 0 {
            return false;
        }
        if now.micros >= self.challenge_refill_at.micros {
            let tokens: u8 = self.challenge_budget(now);
            self.challenge_tokens = tokens;
            self.challenge_refill_at = now + Duration::from_secs(1);
        }
        if self.challenge_tokens > 0 {
            self.challenge_tokens -= 1;
            true
        } else {
            false
        }
    }

    /// IPv4 identification field (RFC 6864 / RFC 7739). For atomic (DF)
    /// datagrams the value is semantically meaningless, so it is a keyed hash,
    /// to deny the idle-scan / traffic-volume side channel a global counter
    /// exposes. Before entropy is seeded it is 0.
    pub fn next_ident(&mut self) -> (r: u16)
        requires
            old(self).parts_wf(),
        ensures
            (final(self)@, r) == old(self)@.ident_drawn(),
            final(self).parts_wf(),
    {
        self.ip_ident = self.ip_ident.wrapping_add(1);
        proof {
            reveal(CoreModel::hashed);
        }
        match self.keyed_hash(domain::IP_IDENT, self.ip_ident) {
            Some(h) => (h % 0x1_0000) as u16,
            None => 0,
        }
    }

    /// The handle of a slot's connection.
    pub fn sock_at(&self, idx: usize) -> (r: SocketId)
        requires
            idx < CONNS,
            CONNS <= 256,
        ensures
            r == self@.sock_at(idx as int),
    {
        SocketId { index: idx as u8, generation: self.generations[idx] }
    }

    /// Slot of a live handle.
    pub fn index_of(&self, sock: SocketId) -> (r: Result<usize, Error>)
        requires
            self.parts_wf(),
        ensures
            match r {
                Ok(i) => self@.live(sock) && i == sock.index && i < CONNS,
                Err(e) => !self@.live(sock) && e is NotFound,
            },
    {
        let idx: usize = sock.index as usize;
        if idx < CONNS && self.generations[idx] == sock.generation && self.conns.get(
            idx,
        ).is_some() {
            Ok(idx)
        } else {
            Err(Error::NotFound)
        }
    }
}

pub proof fn lemma_timer_reconciled_ok(m: CoreModel, now: Instant, idx: int, kind: TimerKind)
    requires
        m.ok(),
        0 <= idx < m.conns.len(),
    ensures
        m.timer_reconciled(now, idx, kind).ok(),
        m.timer_reconciled(now, idx, kind).conns == m.conns,
        m.timer_reconciled(now, idx, kind).cfg == m.cfg,
{
    reveal(CoreModel::timer_reconciled);
    assert(m.emitted.len() == m.conns.len() && real_actions(m.actions)) by {
        reveal(CoreModel::ok);
    }
    let key = TimerKey::Conn { sock: m.sock_at(idx), kind };
    lemma_real_actions(m.actions, Action::CancelTimer { key });
    if let Some(c) = m.conns[idx] {
        if let Some(d) = c.tcb.timers.get(kind) {
            lemma_real_actions(m.actions, Action::StartTimer { key, after: d - now });
        }
    }
    lemma_ok_frame(m, m.timer_reconciled(now, idx, kind));
}

pub proof fn lemma_reconciled_ok(m: CoreModel, now: Instant, idx: int)
    requires
        m.ok(),
        0 <= idx < m.conns.len(),
    ensures
        m.reconciled(now, idx).ok(),
        m.reconciled(now, idx).conns == m.conns,
        m.reconciled(now, idx).cfg == m.cfg,
{
    let a = m.timer_reconciled(now, idx, TimerKind::Rexmit);
    let b = a.timer_reconciled(now, idx, TimerKind::Persist);
    let c = b.timer_reconciled(now, idx, TimerKind::DelAck);
    lemma_timer_reconciled_ok(m, now, idx, TimerKind::Rexmit);
    lemma_timer_reconciled_ok(a, now, idx, TimerKind::Persist);
    lemma_timer_reconciled_ok(b, now, idx, TimerKind::DelAck);
    lemma_timer_reconciled_ok(c, now, idx, TimerKind::Wait);
}

/// With the deadline of one timer replaced.
fn replace_timer(t: Timers, kind: TimerKind, at: Option<Instant>) -> (r: Timers)
    ensures
        r == t.replaced(kind, at),
        at is None ==> r == t.without(kind),
{
    match kind {
        TimerKind::Rexmit => Timers { rexmit: at, ..t },
        TimerKind::Persist => Timers { persist: at, ..t },
        TimerKind::DelAck => Timers { del_ack: at, ..t },
        TimerKind::Wait => Timers { wait: at, ..t },
    }
}

impl<const CONNS: usize, const SND: usize, const RCV: usize> StackCore<CONNS, SND, RCV> {
    /// Translate connection effects into queued actions.
    pub fn process_effects(&mut self, now: Instant, idx: usize, fx: &Effects)
        requires
            old(self).wf(),
            idx < CONNS,
            fx.wf(),
        ensures
            final(self)@ == old(self)@.effects(now, idx as int, fx@),
            final(self).wf(),
    {
        proof {
            lemma_effects_ok(self@, now, idx as int, fx@);
        }
        if fx.wants_challenge {
            self.challenge(now, idx);
        }
        if let Some(r) = fx.reset_reply {
            self.reset_conn(idx, r);
        }
        self.tell_all(idx, &fx.events);
    }

    fn challenge(&mut self, now: Instant, idx: usize)
        requires
            old(self).parts_wf(),
            idx < CONNS,
        ensures
            final(self)@ == old(self)@.challenged(now, idx as int),
            final(self).parts_wf(),
    {
        proof {
            reveal(CoreModel::challenged);
        }
        if self.take_challenge_token(now) {
            self.stats = StackStats {
                challenges_granted: self.stats.challenges_granted.saturating_add(1),
                ..self.stats
            };
            if self.conns.get(idx).is_some() {
                self.conns.grant_challenge(idx);
            }
        } else {
            self.stats = StackStats {
                challenges_limited: self.stats.challenges_limited.saturating_add(1),
                ..self.stats
            };
        }
    }

    fn reset_conn(&mut self, idx: usize, r: ResetReply)
        requires
            old(self).parts_wf(),
            idx < CONNS,
        ensures
            final(self)@ == match old(self)@.conns[idx as int] {
                Some(c) => old(self)@.reset_queued(
                    CtlSegment {
                        local: c.tcb.local,
                        remote: c.tcb.remote,
                        seq: r.seq,
                        ack: r.ack,
                    },
                ),
                None => old(self)@,
            },
            final(self).parts_wf(),
    {
        let ends = match self.conns.get(idx) {
            Some(c) => Some((c.local(), c.remote())),
            None => None,
        };
        if let Some((local, remote)) = ends {
            self.queue_ctl(CtlSegment { local, remote, seq: r.seq, ack: r.ack });
        }
    }

    fn tell_all(&mut self, idx: usize, events: &BoundedVec<ConnEvent, 4>)
        requires
            old(self).parts_wf(),
            idx < CONNS,
            events.wf(),
        ensures
            final(self)@ == old(self)@.told_all(idx as int, events@),
            final(self).parts_wf(),
    {
        let mut i: usize = 0;
        assert(events@.take(0) =~= Seq::<ConnEvent>::empty());
        while i < events.len()
            invariant
                i <= events@.len(),
                events.wf(),
                idx < CONNS,
                self.parts_wf(),
                self@ == old(self)@.told_all(idx as int, events@.take(i as int)),
            decreases events@.len() - i,
        {
            let ev = events.get(i);
            proof {
                let t = events@.take(i + 1);
                assert(t.drop_last() =~= events@.take(i as int));
                assert(t.last() == ev);
            }
            self.tell(idx, ev);
            i += 1;
        }
        assert(events@.take(i as int) =~= events@);
    }

    fn tell(&mut self, idx: usize, ev: ConnEvent)
        requires
            old(self).parts_wf(),
            idx < CONNS,
        ensures
            final(self)@ == old(self)@.told(idx as int, ev),
            final(self).parts_wf(),
    {
        proof {
            reveal(CoreModel::told);
        }
        if ev == ConnEvent::Nothing {
            return;
        }
        let app = self.app_event(idx, ev);
        let delivered = self.queue_action(Action::App(app));
        // A shed `Connected` is offered again by the sweep; until then the
        // application does not know the connection, and a close is silent.
        if !delivered && ev == ConnEvent::Connected && self.conns.get(idx).is_some() {
            self.conns.set_reported(idx, false);
        }
    }

    /// The application's view of a connection's event.
    pub fn app_event(&self, idx: usize, ev: ConnEvent) -> (r: AppEvent)
        requires
            self.parts_wf(),
            idx < CONNS,
        ensures
            r == self@.app_event(idx as int, ev),
    {
        let sock = self.sock_at(idx);
        match ev {
            ConnEvent::Connected => {
                let via_listener = match self.conns.get(idx) {
                    Some(c) => c.accepted_on(),
                    None => None,
                };
                AppEvent::Connected { sock, via_listener }
            },
            ConnEvent::Readable => AppEvent::Readable { sock },
            ConnEvent::Writable => AppEvent::Writable { sock },
            ConnEvent::PeerFin => AppEvent::PeerFinReceived { sock },
            ConnEvent::Closed(reason) => AppEvent::Closed { sock, reason },
            ConnEvent::Nothing => AppEvent::Readable { sock },
        }
    }

    /// Bring the runtime's timers for a slot in line with what its connection
    /// wants.
    pub fn reconcile_conn_timers(&mut self, now: Instant, idx: usize)
        requires
            old(self).parts_wf(),
            idx < CONNS,
        ensures
            final(self)@ == old(self)@.reconciled(now, idx as int),
            final(self).parts_wf(),
    {
        self.reconcile_timer(now, idx, TimerKind::Rexmit);
        self.reconcile_timer(now, idx, TimerKind::Persist);
        self.reconcile_timer(now, idx, TimerKind::DelAck);
        self.reconcile_timer(now, idx, TimerKind::Wait);
    }

    /// A timer is recorded as told only if the queue accepted the action, so a
    /// shed one stays different and is retried by the next reconcile instead
    /// of being lost.
    fn reconcile_timer(&mut self, now: Instant, idx: usize, kind: TimerKind)
        requires
            old(self).parts_wf(),
            idx < CONNS,
        ensures
            final(self)@ == old(self)@.timer_reconciled(now, idx as int, kind),
            final(self).parts_wf(),
    {
        proof {
            reveal(CoreModel::timer_reconciled);
        }
        let desired: Option<Instant> = match self.conns.get(idx) {
            Some(c) => c.timer_deadline(kind),
            None => None,
        };
        if desired == self.emitted_conn_timers[idx].get(kind) {
            return;
        }
        let key = TimerKey::Conn { sock: self.sock_at(idx), kind };
        let action = match desired {
            Some(d) => Action::StartTimer { key, after: d.saturating_since(now) },
            None => Action::CancelTimer { key },
        };
        if self.queue_action(action) {
            self.emitted_conn_timers[idx] = replace_timer(
                self.emitted_conn_timers[idx],
                kind,
                desired,
            );
        }
    }

    /// A connection's timer fired.
    pub fn on_conn_timer(&mut self, now: Instant, sock: SocketId, kind: TimerKind)
        requires
            old(self).wf(),
        ensures
            final(self)@ == old(self)@.timer_fired(now, sock, kind),
            final(self).wf(),
    {
        proof {
            reveal(CoreModel::timer_fired);
        }
        let idx: usize = sock.index as usize;
        if idx >= CONNS || self.generations[idx] != sock.generation {
            // Stale timer for a recycled slot.
            return;
        }
        self.emitted_conn_timers[idx] = replace_timer(self.emitted_conn_timers[idx], kind, None);
        let ghost a = self@;
        proof {
            lemma_ok_frame(old(self)@, a);
            lemma_path_ok(a, idx as int);
        }
        if self.conns.get(idx).is_some() {
            let mut fx = Effects::default();
            self.conns.on_timer(idx, now, kind, &mut fx);
            proof {
                lemma_with_conn_ok(a, idx as int, self@.conns[idx as int]);
            }
            self.process_effects(now, idx, &fx);
        }
    }
}

/// Parameters for a connection of ours toward an address of a family that we
/// have fit its path.
pub proof fn lemma_params_ok(m: CoreModel, now: Instant, local: SocketAddr, remote: SocketAddr)
    requires
        m.ok(),
        local.ip is V4 <==> remote.ip is V4,
        m.cfg.owns(local.ip),
    ensures
        m.params_for(now, remote.ip).pmtu_mss + overhead(remote.ip) <= m.cfg.mtu,
        m.params_for(now, remote.ip).offer_wscale matches Some(s) ==> s <= 14,
{
    reveal(CoreModel::ok);
    reveal(CoreModel::params_for);
    estimate_within_link(m.pmtu, now, m.cfg.mtu, remote.ip);
    if local.ip is V6 {
        let k = choose|k: int|
            0 <= k < m.cfg.local_addrs@.len() && m.cfg.local_addrs@[k] == local.ip;
        assert(m.cfg.local_addrs@[k] is V6);
    }
}

/// What a search through the addresses finds.
proof fn lemma_first_of_family_is(addrs: Seq<IpAddr>, ip: IpAddr, k: int)
    requires
        0 <= k <= addrs.len(),
        forall|i: int| 0 <= i < k ==> !((#[trigger] addrs[i]) is V4 <==> ip is V4),
        k < addrs.len() ==> (addrs[k] is V4 <==> ip is V4),
    ensures
        first_of_family(addrs, ip) == if k < addrs.len() {
            Some(addrs[k])
        } else {
            None
        },
    decreases addrs.len(),
{
    if k > 0 {
        assert(forall|i: int| 0 <= i < k - 1 ==> addrs.drop_first()[i] == addrs[i + 1]);
        lemma_first_of_family_is(addrs.drop_first(), ip, k - 1);
    }
}

/// What selects the port sequence of a destination.
fn tag_destination(remote: &SocketAddr) -> (r: u64)
    ensures
        r == destination_tag(*remote),
{
    let low: u64 = match &remote.ip {
        IpAddr::V4(b) => read_u32(b, 0) as u64,
        IpAddr::V6(b) => read_u32(b, 8) as u64 * 0x1_0000_0000 + read_u32(b, 12) as u64,
    };
    low.wrapping_add(remote.port as u64 * 0x1_0000_0000)
}

impl<const CONNS: usize, const SND: usize, const RCV: usize> StackCore<CONNS, SND, RCV> {
    pub fn listens_on(&self, port: u16) -> (r: bool)
        requires
            self.listeners.wf(),
        ensures
            r == self@.listeners.contains(port),
    {
        let mut i: usize = 0;
        while i < self.listeners.len()
            invariant
                i <= self.listeners@.len(),
                self.listeners.wf(),
                forall|j: int| 0 <= j < i ==> self.listeners@[j] != port,
            decreases self.listeners@.len() - i,
        {
            if self.listeners.get(i) == port {
                assert(self.listeners@[i as int] == port);
                return true;
            }
            i += 1;
        }
        false
    }

    /// Start accepting connections on `port`.
    pub fn listen(&mut self, port: u16) -> (r: Result<(), Error>)
        requires
            old(self).wf(),
        ensures
            (final(self)@, r) == old(self)@.listening(port),
            final(self).wf(),
    {
        if port == 0 {
            return Err(Error::Unaddressable);
        }
        if self.listens_on(port) {
            return Err(Error::AddrInUse);
        }
        if self.listeners.is_full() {
            return Err(Error::BufferFull);
        }
        let _ = self.listeners.push(port);
        proof {
            lemma_ok_frame(old(self)@, self@);
        }
        Ok(())
    }

    /// Stop accepting connections on `port`.
    pub fn unlisten(&mut self, port: u16)
        requires
            old(self).wf(),
        ensures
            final(self)@ == old(self)@.unlistened(port),
            final(self).wf(),
    {
        let keep = |p: &u16| -> (b: bool)
            ensures
                b == (*p != port),
            { *p != port };
        let ghost p = |p: u16| p != port;
        self.listeners.retain(keep);
        assert(self.listeners@ == old(self).listeners@.filter(p));
        proof {
            lemma_ok_frame(old(self)@, self@);
        }
    }

    /// RFC 6056 algorithm 5 (double-hash port selection): an off-path observer
    /// of one outbound connection learns nothing about the source port of the
    /// next. Deterministic given the entropy seed.
    pub fn alloc_ephemeral(&mut self, remote: &SocketAddr) -> (r: Option<u16>)
        requires
            old(self).wf(),
        ensures
            (final(self)@, r) == old(self)@.port_chosen(*remote),
            final(self).wf(),
            r matches Some(p) ==> p >= EPHEMERAL_LO,
    {
        proof {
            reveal(CoreModel::port_chosen);
        }
        let counter: u16 = self.next_ephemeral;
        let tag: u64 = tag_destination(remote);
        let offset: u64 = match self.keyed_hash(
            domain::EPHEMERAL_PORT,
            tag.wrapping_add(counter as u64),
        ) {
            Some(h) => h,
            None => counter as u64,
        };
        self.next_ephemeral = counter.wrapping_add(1);
        proof {
            lemma_ok_frame(old(self)@, self@);
        }
        self.find_port(remote, offset)
    }

    fn find_port(&self, remote: &SocketAddr, offset: u64) -> (r: Option<u16>)
        requires
            self.parts_wf(),
        ensures
            r == free_port(self@.conns, self@.listeners, *remote, offset, 0),
            r matches Some(p) ==> p >= EPHEMERAL_LO,
    {
        let base: u32 = (offset % EPHEMERAL_SPAN as u64) as u32;
        let mut i: u32 = 0;
        while i < EPHEMERAL_SPAN
            invariant
                i <= EPHEMERAL_SPAN,
                self.parts_wf(),
                base == offset % EPHEMERAL_SPAN as u64,
                free_port(self@.conns, self@.listeners, *remote, offset, 0) == free_port(
                    self@.conns,
                    self@.listeners,
                    *remote,
                    offset,
                    i as nat,
                ),
            decreases EPHEMERAL_SPAN - i,
        {
            let port: u16 = EPHEMERAL_LO + ((base + i) % EPHEMERAL_SPAN) as u16;
            assert(port == ephemeral_at(offset, i as int));
            if !self.listens_on(port) && !self.conns.port_used(port, remote) {
                return Some(port);
            }
            i += 1;
        }
        None
    }

    /// Parameters of a connection toward an address.
    pub fn conn_params(&self, now: Instant, remote_ip: &IpAddr) -> (r: ConnParams)
        ensures
            r == self@.params_for(now, *remote_ip),
    {
        proof {
            reveal(CoreModel::params_for);
        }
        let (over, floor): (u16, u16) = if remote_ip.is_v4() {
            (V4_OVERHEAD, IPV4_MIN_PMTU)
        } else {
            (V6_OVERHEAD, IPV6_MIN_PMTU)
        };
        let local_mss: u16 = match self.cfg.mss_override {
            Some(m) => m,
            None => larger(self.cfg.mtu, floor) - over,
        };
        let pmtu: u16 = larger(self.pmtu.get(now, self.cfg.mtu, remote_ip), floor);
        let offer_wscale = if self.cfg.offer_window_scale {
            Some(
                if self.cfg.recv_window_scale < 14 {
                    self.cfg.recv_window_scale
                } else {
                    14
                },
            )
        } else {
            None
        };
        ConnParams { local_mss, offer_wscale, offer_sack: self.cfg.sack, pmtu_mss: pmtu - over }
    }

    /// Active open to `remote` from an automatic local endpoint.
    pub fn connect(&mut self, now: Instant, remote: SocketAddr) -> (r: Result<SocketId, Error>)
        requires
            old(self).wf(),
        ensures
            (final(self)@, r) == old(self)@.opened(now, remote),
            final(self).wf(),
    {
        match self.local_for(&remote.ip) {
            None => Err(Error::Unaddressable),
            Some(ip) => match self.alloc_ephemeral(&remote) {
                None => Err(Error::NoSlot),
                Some(port) => self.connect_from(now, SocketAddr { ip, port }, remote),
            },
        }
    }

    fn local_for(&self, ip: &IpAddr) -> (r: Option<IpAddr>)
        requires
            self.cfg.local_addrs.wf(),
        ensures
            r == first_of_family(self.cfg.local_addrs@, *ip),
    {
        let mut i: usize = 0;
        while i < self.cfg.local_addrs.len()
            invariant
                i <= self.cfg.local_addrs@.len(),
                self.cfg.local_addrs.wf(),
                forall|j: int|
                    0 <= j < i ==> !((#[trigger] self.cfg.local_addrs@[j]) is V4 <==> ip is V4),
            decreases self.cfg.local_addrs@.len() - i,
        {
            let a = self.cfg.local_addrs.get(i);
            if a.same_family(ip) {
                proof {
                    lemma_first_of_family_is(self.cfg.local_addrs@, *ip, i as int);
                }
                return Some(a);
            }
            i += 1;
        }
        proof {
            lemma_first_of_family_is(self.cfg.local_addrs@, *ip, i as int);
        }
        None
    }

    /// Active open with an explicit local endpoint.
    pub fn connect_from(&mut self, now: Instant, local: SocketAddr, remote: SocketAddr) -> (r: Result<
        SocketId,
        Error,
    >)
        requires
            old(self).wf(),
        ensures
            (final(self)@, r) == old(self)@.opened_from(now, local, remote),
            final(self).wf(),
    {
        proof {
            reveal(CoreModel::opened_from);
        }
        // A SYN to ourselves would be dropped on receipt as a martian: refuse
        // it here.
        if !local.ip.same_family(&remote.ip) || remote.port == 0 || local.port == 0
            || !remote.ip.is_unicast_source() || self.cfg.is_local(&remote.ip)
            || !self.cfg.is_local(&local.ip) {
            return Err(Error::Unaddressable);
        }
        let iss = match self.isn.generate(now, local, remote) {
            None => {
                return Err(Error::NeedEntropy);
            },
            Some(iss) => iss,
        };
        if self.conns.find(&local, &remote).is_some() {
            return Err(Error::AddrInUse);
        }
        match self.conns.free_slot() {
            None => Err(Error::NoSlot),
            Some(idx) => {
                let params = self.conn_params(now, &remote.ip);
                proof {
                    lemma_params_ok(self@, now, local, remote);
                }
                let c = Connection::client(&self.cfg, params, local, remote, iss);
                proof {
                    lemma_with_conn_ok(self@, idx as int, Some(c@));
                }
                let sock = self.sock_at(idx);
                self.conns.put(idx, Some(c));
                Ok(sock)
            },
        }
    }

    /// Queue bytes for sending.
    pub fn send(&mut self, sock: SocketId, data: &[u8]) -> (r: Result<usize, Error>)
        requires
            old(self).wf(),
        ensures
            (final(self)@, r) == old(self)@.sent(sock, data@),
            final(self).wf(),
    {
        match self.index_of(sock) {
            Err(e) => Err(e),
            Ok(idx) => {
                proof {
                    lemma_path_ok(self@, idx as int);
                }
                let r = self.conns.send(idx, data);
                proof {
                    lemma_with_conn_ok(old(self)@, idx as int, self@.conns[idx as int]);
                }
                r
            },
        }
    }

    /// Read received bytes.
    pub fn recv(&mut self, sock: SocketId, out: &mut [u8]) -> (r: Result<usize, Error>)
        requires
            old(self).wf(),
        ensures
            match old(self)@.conn_of(sock) {
                None => {
                    &&& r == Err::<usize, Error>(Error::NotFound)
                    &&& final(self)@ == old(self)@
                    &&& final(out)@ == old(out)@
                },
                Some(c) => {
                    let n = c.readable_into(old(out)@.len() as int);
                    &&& r == Ok::<usize, Error>(n as usize)
                    &&& final(out)@ == c.rcv.pending().take(n) + old(out)@.skip(n)
                    &&& final(self)@ == old(self)@.with_conn(
                        sock.index as int,
                        Some(c.taken(n)),
                    )
                },
            },
            final(self).wf(),
    {
        match self.index_of(sock) {
            Err(e) => Err(e),
            Ok(idx) => {
                proof {
                    lemma_path_ok(self@, idx as int);
                }
                let r = self.conns.recv(idx, out);
                proof {
                    lemma_with_conn_ok(old(self)@, idx as int, self@.conns[idx as int]);
                }
                r
            },
        }
    }

    /// Graceful close.
    pub fn close(&mut self, now: Instant, sock: SocketId) -> (r: Result<(), Error>)
        requires
            old(self).wf(),
        ensures
            (final(self)@, r) == old(self)@.shut(now, sock),
            final(self).wf(),
    {
        proof {
            reveal(CoreModel::shut);
        }
        match self.index_of(sock) {
            Err(e) => Err(e),
            Ok(idx) => {
                proof {
                    lemma_path_ok(self@, idx as int);
                }
                let mut fx = Effects::default();
                let r = self.conns.close(idx, &mut fx);
                proof {
                    lemma_with_conn_ok(old(self)@, idx as int, self@.conns[idx as int]);
                }
                self.process_effects(now, idx, &fx);
                r
            },
        }
    }

    /// Abort: RST the peer and drop everything immediately.
    pub fn abort(&mut self, now: Instant, sock: SocketId) -> (r: Result<(), Error>)
        requires
            old(self).wf(),
        ensures
            (final(self)@, r) == old(self)@.aborted(now, sock),
            final(self).wf(),
    {
        proof {
            reveal(CoreModel::aborted);
        }
        match self.index_of(sock) {
            Err(e) => Err(e),
            Ok(idx) => {
                proof {
                    lemma_path_ok(self@, idx as int);
                }
                let mut fx = Effects::default();
                let rst = self.conns.abort(idx, &mut fx);
                let ghost a = self@;
                proof {
                    lemma_with_conn_ok(old(self)@, idx as int, a.conns[idx as int]);
                }
                if let Some(r) = rst {
                    proof {
                        let t = a.conns[idx as int]->0.tcb;
                        lemma_reset_queued_ok(
                            a,
                            CtlSegment {
                                local: t.local,
                                remote: t.remote,
                                seq: r.seq,
                                ack: r.ack,
                            },
                        );
                    }
                    self.reset_conn(idx, r);
                }
                self.process_effects(now, idx, &fx);
                Ok(())
            },
        }
    }
}

/// The larger of two MTUs.
fn larger(a: u16, b: u16) -> (r: u16)
    ensures
        r == crate::tcp::cc::greater(a as int, b as int),
{
    if a >= b {
        a
    } else {
        b
    }
}

} // verus!
