//! The host stack: demultiplexing, listeners, the action queue and timer
//! reconciliation; the single object a runtime embeds.
//!
//! ## Runtime contract
//!
//! * Feed every received IP datagram via [`Stack::on_datagram`] (or
//!   [`Stack::handle`]), every timer expiry via [`Stack::on_timer`], and
//!   answer [`Action::RequestEntropy`] via [`Stack::on_entropy`].
//! * After **every** event or API call, call [`Stack::poll_action`] with a
//!   buffer of at least MTU bytes until it returns `None`, performing each
//!   action (transmit the buffer, arm/cancel timers, surface app events).
//! * Time is monotone non-decreasing across all calls.
//!
//! Given identical event sequences (including `now` values and entropy),
//! the stack's outputs are byte-identical: each call is a function of the
//! stack's model and its arguments.
pub mod delivery;
pub mod draining;
pub mod emit;
pub mod errors;
pub mod handles;
pub mod host;
pub mod laws;
pub mod model;
pub mod owed;
pub mod polling;
pub mod service;
pub mod table;
pub mod timing;
pub mod transmitted;

pub use host::StackCore;
pub use model::{CoreModel, CtlSegment, EchoReply, StackStats};
use crate::config::{unicast_of, Config, ECHO_BUF_SIZE, PMTU_CACHE_SIZE, REASM_SLOTS};
use crate::ip::pmtu::{Entry, PmtuCache};
use crate::ip::reasm::{complete_slot_holds_the_key, pushed, ReasmResult, Reassembler, SlotModel};
use crate::ip::ReasmKey;
use crate::tcp::conn::model::MAX_CAPACITY;
use crate::tcp::conn::{ConnModel, Timers};
use crate::tcp::isn::{le64, IsnGenerator, SipHash24};
use crate::tcp::State;
use crate::time::Instant;
use crate::types::{
    Action, Error, Event, IpAddr, SocketAddr, SocketId, TimerKey, TimerKind,
};
use crate::util::{BoundedQueue, BoundedVec};
use crate::wire::{ipv4, ipv6};
use host::lemma_ok_frame;
use model::counted;
use polling::{buffer_after, transmits};
use table::ConnTable;
use vstd::prelude::*;

verus! {

/// Model of the stack.
pub struct StackModel {
    /// Everything but reassembly.
    pub host: CoreModel,
    /// Reassembly slots.
    pub slots: Seq<SlotModel>,
    /// Generation and deadline of each slot's timer, as last told to the
    /// runtime.
    pub emitted_reasm: Seq<Option<(u8, Instant)>>,
}

impl StackModel {
    /// The stack right after its creation.
    pub open spec fn fresh(cfg: Config, conns: nat, snd_cap: nat, rcv_cap: nat) -> CoreModel {
        CoreModel {
            cfg,
            snd_cap,
            rcv_cap,
            conns: Seq::new(conns, |i: int| None::<ConnModel>),
            generations: Seq::new(conns, |i: int| 0u32),
            listeners: Seq::empty(),
            key: None,
            entropy_request_pending: true,
            pmtu: Seq::new(PMTU_CACHE_SIZE as nat, |i: int| None::<Entry>),
            actions: Seq::empty(),
            ctl: Seq::empty(),
            echo: None,
            echo_buf: Seq::new(ECHO_BUF_SIZE as nat, |i: int| 0u8),
            emitted: Seq::new(conns, |i: int| Timers::idle()),
            challenge_tokens: 0,
            challenge_refill_at: Instant { micros: 0 },
            ip_ident: 0,
            next_ephemeral: 49152,
            poll_cursor: 0,
            stats: StackStats::zero(),
        }
    }

    /// With the part outside reassembly replaced.
    pub open spec fn with_host(self, host: CoreModel) -> StackModel {
        StackModel { host, ..self }
    }

    // ----- Events -----

    /// After entropy arrived. Only the first counts (RFC 6528 section 3: the
    /// secret should change only on reboot).
    pub open spec fn seeded(self, bytes: Seq<u8>) -> StackModel {
        if self.host.key is None {
            self.with_host(
                CoreModel {
                    key: Some(SipHash24 { k0: le64(bytes, 0), k1: le64(bytes, 8) }),
                    ..self.host
                },
            )
        } else {
            self
        }
    }

    /// After a virtual timer fired. The runtime has it no more; a slot's
    /// reassembly is given up only if the slot was not taken anew since.
    pub open spec fn timer_fired(self, now: Instant, key: TimerKey) -> StackModel {
        match key {
            TimerKey::Conn { sock, kind } => self.with_host(
                self.host.timer_fired(now, sock, kind),
            ),
            TimerKey::Reasm { slot, generation } => {
                let i = slot as int;
                if i >= self.slots.len() {
                    self
                } else {
                    StackModel {
                        emitted_reasm: if self.emitted_reasm[i] matches Some((g, _)) && g
                            == generation {
                            self.emitted_reasm.update(i, None)
                        } else {
                            self.emitted_reasm
                        },
                        slots: if self.slots[i].generation == generation {
                            self.slots.update(i, self.slots[i].freed())
                        } else {
                            self.slots
                        },
                        ..self
                    }
                }
            },
        }
    }

    /// After a fragment for one of our addresses arrived. The one that
    /// completes its datagram delivers it, and frees the slot.
    #[verifier::opaque]
    pub open spec fn fragment_taken(
        self,
        now: Instant,
        key: ReasmKey,
        off: u32,
        more: bool,
        data: Seq<u8>,
    ) -> StackModel {
        let (slots, r) = pushed(
            self.slots,
            now,
            self.host.cfg.reassembly_timeout,
            key,
            off,
            more,
            data,
        );
        match r {
            ReasmResult::Complete { slot } => {
                let s = slots[slot as int];
                StackModel {
                    host: self.host.delivered(
                        now,
                        key.src,
                        key.dst,
                        key.proto,
                        s.buf.take(s.total_len->0 as int),
                    ),
                    slots: slots.update(slot as int, s.freed()),
                    ..self
                }
            },
            _ => StackModel { slots, ..self },
        }
    }

    /// After an IPv4 datagram arrived. Hosts do not forward (RFC 1122 section
    /// 3.3.4).
    #[verifier::opaque]
    pub open spec fn ipv4_taken(self, now: Instant, frame: Seq<u8>) -> StackModel {
        match ipv4::parsed(frame) {
            Err(_) => self.with_host(self.host.malformed()),
            Ok((h, payload)) => {
                let src = IpAddr::V4(h.src);
                let dst = IpAddr::V4(h.dst);
                if !self.host.cfg.owns(dst) {
                    self.with_host(self.host.not_local())
                } else if h.more_frags || h.frag_offset != 0 {
                    self.fragment_taken(
                        now,
                        ReasmKey { src, dst, proto: h.proto, ident: h.ident as u32 },
                        h.frag_offset as u32,
                        h.more_frags,
                        payload,
                    )
                } else {
                    self.with_host(self.host.delivered(now, src, dst, h.proto, payload))
                }
            },
        }
    }

    /// After an IPv6 datagram arrived. An atomic fragment (offset 0, nothing
    /// to follow) is processed as if it had no fragment header (RFC 6946), so
    /// it cannot be denied by slots that are taken.
    #[verifier::opaque]
    pub open spec fn ipv6_taken(self, now: Instant, frame: Seq<u8>) -> StackModel {
        match ipv6::parsed(frame) {
            Err(_) => self.with_host(self.host.malformed()),
            Ok((h, payload)) => {
                let src = IpAddr::V6(h.src);
                let dst = IpAddr::V6(h.dst);
                if !self.host.cfg.owns(dst) {
                    self.with_host(self.host.not_local())
                } else {
                    match h.frag {
                        Some(f) => if f.offset != 0 || f.more {
                            self.fragment_taken(
                                now,
                                ReasmKey { src, dst, proto: f.next, ident: f.ident },
                                f.offset as u32,
                                f.more,
                                payload,
                            )
                        } else {
                            self.with_host(self.host.delivered(now, src, dst, f.next, payload))
                        },
                        None => self.with_host(
                            self.host.delivered(now, src, dst, h.proto, payload),
                        ),
                    }
                }
            },
        }
    }

    /// After a whole IP datagram arrived from the link.
    pub open spec fn datagram_taken(self, now: Instant, frame: Seq<u8>) -> StackModel {
        let m = self.with_host(
            CoreModel {
                stats: StackStats {
                    rx_datagrams: counted(self.host.stats.rx_datagrams),
                    ..self.host.stats
                },
                ..self.host
            },
        );
        if frame.len() > 0 && frame[0] / 16 == 4 {
            m.ipv4_taken(now, frame)
        } else if frame.len() > 0 && frame[0] / 16 == 6 {
            m.ipv6_taken(now, frame)
        } else {
            m.with_host(m.host.malformed())
        }
    }

    // ----- Polling -----

    /// With the timer of a slot's earlier reassembly cancelled, if the runtime
    /// still has one; and whether that went through.
    #[verifier::opaque]
    pub open spec fn predecessor_cancelled(self, slot: int) -> (StackModel, bool) {
        match self.emitted_reasm[slot] {
            Some((old, _)) => if old != self.slots[slot].generation {
                let key = TimerKey::Reasm { slot: slot as u8, generation: old };
                let (m, ok) = self.host.queued(Action::CancelTimer { key });
                (
                    StackModel {
                        host: m,
                        emitted_reasm: if ok {
                            self.emitted_reasm.update(slot, None)
                        } else {
                            self.emitted_reasm
                        },
                        ..self
                    },
                    ok,
                )
            } else {
                (self, true)
            },
            None => (self, true),
        }
    }

    /// When a slot's reassembly is given up.
    pub open spec fn slot_deadline(self, slot: int) -> Option<Instant> {
        if self.slots[slot].in_use {
            Some(self.slots[slot].deadline)
        } else {
            None
        }
    }

    /// With the timer of a slot's own reassembly brought in line.
    #[verifier::opaque]
    pub open spec fn slot_timer_reconciled(self, now: Instant, slot: int) -> StackModel {
        let generation = self.slots[slot].generation;
        let key = TimerKey::Reasm { slot: slot as u8, generation };
        let desired = self.slot_deadline(slot);
        let told = match self.emitted_reasm[slot] {
            Some((_, t)) => Some(t),
            None => None,
        };
        if desired == told {
            self
        } else {
            let (m, ok) = self.host.queued(
                match desired {
                    Some(d) => Action::StartTimer { key, after: d - now },
                    None => Action::CancelTimer { key },
                },
            );
            StackModel {
                host: m,
                emitted_reasm: if !ok {
                    self.emitted_reasm
                } else {
                    self.emitted_reasm.update(
                        slot,
                        match desired {
                            Some(d) => Some((generation, d)),
                            None => None,
                        },
                    )
                },
                ..self
            }
        }
    }

    /// With one slot's timers brought in line.
    pub open spec fn slot_reconciled(self, now: Instant, slot: int) -> StackModel {
        let (m, ok) = self.predecessor_cancelled(slot);
        if ok {
            m.slot_timer_reconciled(now, slot)
        } else {
            m
        }
    }

    /// With the timers of the first `n` slots brought in line.
    pub open spec fn slots_reconciled(self, now: Instant, n: nat) -> StackModel
        decreases n,
    {
        if n == 0 {
            self
        } else {
            self.slots_reconciled(now, (n - 1) as nat).slot_reconciled(now, n - 1)
        }
    }

    /// With dead slots freed and all timers brought in line.
    pub open spec fn swept(self, now: Instant) -> StackModel {
        self.with_host(self.host.swept(now, self.host.conns.len())).slots_reconciled(
            now,
            self.slots.len(),
        )
    }

    /// What a poll hands out, with the datagram, if one is to be transmitted.
    /// When there is nothing else, timers are brought in line, and what that
    /// queued is handed out.
    pub open spec fn polled(self, now: Instant) -> (StackModel, Option<Action>, Option<Seq<u8>>) {
        let (m, a, d) = self.host.drained(now);
        if a is Some {
            (self.with_host(m), a, d)
        } else {
            let s = self.with_host(m).swept(now);
            if s.host.actions.len() > 0 {
                (
                    s.with_host(
                        CoreModel { actions: s.host.actions.drop_first(), ..s.host },
                    ),
                    Some(s.host.actions[0]),
                    None,
                )
            } else {
                (s, None, None)
            }
        }
    }
}

/// The TCP/IP host stack with `CONNS` connection slots and per-connection
/// send/receive buffers of `SND`/`RCV` bytes.
///
/// All memory is inline: the connection table *is* the pre-allocated
/// connection pool. Place the whole stack in a `static`, a `Box`, or any
/// fixed arena. `CONNS` is at most 256; `SND`/`RCV` are preferably powers of
/// two and at most 1 GiB. A typical node is `Stack<8, 16384, 16384>`.
///
/// The struct is split into the IP reassembler and `host` (everything else)
/// so a reassembled payload can be borrowed from `reasm` while `host` is
/// changed.
pub struct Stack<const CONNS: usize, const SND: usize, const RCV: usize> {
    /// IP reassembler.
    pub reasm: Reassembler,
    /// `(generation, deadline)` as last told to the runtime, per reassembly
    /// slot. Tracking the generation lets the reconcile address a
    /// `CancelTimer` to the predecessor occupant when a slot is reallocated
    /// under backlog.
    pub emitted_reasm_timers: [Option<(u8, Instant)>; REASM_SLOTS],
    /// Everything else.
    pub host: StackCore<CONNS, SND, RCV>,
}

impl<const CONNS: usize, const SND: usize, const RCV: usize> View for Stack<CONNS, SND, RCV> {
    type V = StackModel;

    open spec fn view(&self) -> StackModel {
        StackModel {
            host: self.host@,
            slots: self.reasm@,
            emitted_reasm: self.emitted_reasm_timers@,
        }
    }
}

impl<const CONNS: usize, const SND: usize, const RCV: usize> Stack<CONNS, SND, RCV> {
    /// Well-formedness of the two parts.
    pub open spec fn wf(&self) -> bool {
        &&& self.reasm.wf()
        &&& self.host.wf()
    }

    /// Whether this is a new stack with the configuration `cfg`, normalized.
    pub open spec fn fresh_from(&self, cfg: Config) -> bool {
        let unicast = unicast_of(cfg.local_addrs@);
        &&& self@.host == StackModel::fresh(self@.host.cfg, CONNS as nat, SND as nat, RCV as nat)
        &&& self@.host.cfg.sane()
        &&& self@.host.cfg == (Config {
            local_addrs: self@.host.cfg.local_addrs,
            ..cfg
        }).tunables_forced()
        &&& self@.host.cfg.local_addrs.wf()
        &&& self@.host.cfg.local_addrs@ == unicast
        &&& self@.host.cfg.local_addrs.store() == unicast + cfg.local_addrs.store().skip(
            unicast.len() as int,
        )
        &&& self@.slots == Seq::new(REASM_SLOTS as nat, |i: int| SlotModel::vacant())
        &&& self@.emitted_reasm == Seq::new(REASM_SLOTS as nat, |i: int| None::<(u8, Instant)>)
    }

    /// Create a stack. The first `poll_action` returns
    /// [`Action::RequestEntropy`]; until the runtime answers, opens are
    /// refused with [`Error::NeedEntropy`] and inbound SYNs are dropped.
    ///
    /// The configuration is normalized; at least one unicast local address
    /// must remain.
    pub fn new(cfg: Config) -> (r: Self)
        requires
            1 <= CONNS <= 256,
            0 < SND <= MAX_CAPACITY,
            0 < RCV <= MAX_CAPACITY,
            cfg.local_addrs.wf(),
            unicast_of(cfg.local_addrs@).len() > 0,
        ensures
            r.wf(),
            r.fresh_from(cfg),
    {
        let mut cfg = cfg;
        let _ = cfg.normalize();
        let host = StackCore {
            cfg,
            conns: ConnTable::new(),
            generations: [0; CONNS],
            listeners: BoundedVec::new(),
            isn: IsnGenerator::new(),
            entropy_request_pending: true,
            pmtu: PmtuCache::new(),
            actions: BoundedQueue::new(),
            ctl: BoundedQueue::new(),
            echo: None,
            echo_buf: [0; ECHO_BUF_SIZE],
            emitted_conn_timers: [Timers::none(); CONNS],
            challenge_tokens: 0,
            challenge_refill_at: Instant::zero(),
            ip_ident: 0,
            next_ephemeral: 49152,
            poll_cursor: 0,
            stats: StackStats::default(),
        };
        proof {
            let f = StackModel::fresh(cfg, CONNS as nat, SND as nat, RCV as nat);
            assert(host@.generations =~= f.generations);
            assert(host@.pmtu =~= f.pmtu);
            assert(host@.echo_buf =~= f.echo_buf);
            assert(host@.emitted =~= f.emitted);
            reveal(CoreModel::ok);
            reveal(host::real_actions);
        }
        let r = Stack {
            reasm: Reassembler::new(),
            emitted_reasm_timers: [None; REASM_SLOTS],
            host,
        };
        proof {
            r.reasm.lemma_model_wf();
        }
        assert(r@.emitted_reasm =~= Seq::new(
            REASM_SLOTS as nat,
            |i: int| None::<(u8, Instant)>,
        ));
        r
    }

    /// Stack configuration.
    pub fn config(&self) -> (r: &Config)
        ensures
            *r == self@.host.cfg,
    {
        &self.host.cfg
    }

    /// Counters.
    pub fn stats(&self) -> (r: StackStats)
        ensures
            r == self@.host.stats,
    {
        self.host.stats
    }

    /// State of a connection, if the handle is live (test/diagnostic aid).
    pub fn state_of(&self, sock: SocketId) -> (r: Option<State>)
        requires
            self.wf(),
        ensures
            r == match self@.host.conn_of(sock) {
                Some(c) => Some(c.tcb.state),
                None => None,
            },
    {
        match self.host.index_of(sock) {
            Ok(idx) => match self.host.conns.get(idx) {
                Some(c) => Some(c.state()),
                None => None,
            },
            Err(_) => None,
        }
    }

    /// Local port bound to a connection (test/diagnostic aid).
    pub fn local_port_of(&self, sock: SocketId) -> (r: Option<u16>)
        requires
            self.wf(),
        ensures
            r == match self@.host.conn_of(sock) {
                Some(c) => Some(c.tcb.local.port),
                None => None,
            },
    {
        match self.host.index_of(sock) {
            Ok(idx) => match self.host.conns.get(idx) {
                Some(c) => Some(c.local().port),
                None => None,
            },
            Err(_) => None,
        }
    }

    /// Send-sequence variables `(SND.UNA, SND.NXT, SND.WND)` for a live
    /// connection (test/diagnostic aid).
    pub fn snd_state_of(&self, sock: SocketId) -> (r: Option<(u32, u32, u32)>)
        requires
            self.wf(),
        ensures
            r == match self@.host.conn_of(sock) {
                Some(c) => Some((c.tcb.snd_una.0, c.tcb.snd_nxt.0, c.tcb.snd_wnd)),
                None => None,
            },
    {
        match self.host.index_of(sock) {
            Ok(idx) => match self.host.conns.get(idx) {
                Some(c) => Some(c.snd_state()),
                None => None,
            },
            Err(_) => None,
        }
    }

    /// RCV.NXT for a live connection (test/diagnostic aid).
    pub fn rcv_nxt_of(&self, sock: SocketId) -> (r: Option<u32>)
        requires
            self.wf(),
        ensures
            r == match self@.host.conn_of(sock) {
                Some(c) => Some(c.tcb.rcv_nxt.0),
                None => None,
            },
    {
        match self.host.index_of(sock) {
            Ok(idx) => match self.host.conns.get(idx) {
                Some(c) => Some(c.rcv_nxt()),
                None => None,
            },
            Err(_) => None,
        }
    }

    /// Desired timer deadlines `[Rexmit, Persist, DelAck, Wait]` for a live
    /// connection (test/diagnostic aid). At quiescence (after `poll_action`
    /// has returned `None`) the runtime's armed timers equal exactly this.
    pub fn timer_deadlines_of(&self, sock: SocketId) -> (r: Option<[Option<Instant>; 4]>)
        requires
            self.wf(),
        ensures
            match r {
                Some(a) => self@.host.conn_of(sock) is Some && a@ == seq![
                    self@.host.conn_of(sock)->0.tcb.timers.rexmit,
                    self@.host.conn_of(sock)->0.tcb.timers.persist,
                    self@.host.conn_of(sock)->0.tcb.timers.del_ack,
                    self@.host.conn_of(sock)->0.tcb.timers.wait,
                ],
                None => self@.host.conn_of(sock) is None,
            },
    {
        match self.host.index_of(sock) {
            Ok(idx) => match self.host.conns.get(idx) {
                Some(c) => {
                    let a: [Option<Instant>; 4] = [
                        c.timer_deadline(TimerKind::Rexmit),
                        c.timer_deadline(TimerKind::Persist),
                        c.timer_deadline(TimerKind::DelAck),
                        c.timer_deadline(TimerKind::Wait),
                    ];
                    assert(a@ =~= seq![
                        c@.tcb.timers.rexmit,
                        c@.tcb.timers.persist,
                        c@.tcb.timers.del_ack,
                        c@.tcb.timers.wait,
                    ]);
                    Some(a)
                },
                None => None,
            },
            Err(_) => None,
        }
    }

    /// Feed one environment event.
    pub fn handle(&mut self, now: Instant, event: Event<'_>)
        requires
            old(self).wf(),
        ensures
            final(self)@ == match event {
                Event::DatagramReceived(frame) => old(self)@.datagram_taken(now, frame@),
                Event::TimerExpired(key) => old(self)@.timer_fired(now, key),
                Event::EntropyProvided(bytes) => old(self)@.seeded(bytes@),
            },
            final(self).wf(),
    {
        match event {
            Event::DatagramReceived(frame) => self.on_datagram(now, frame),
            Event::TimerExpired(key) => self.on_timer(now, key),
            Event::EntropyProvided(bytes) => self.on_entropy(bytes),
        }
    }

    /// Entropy arrived in answer to [`Action::RequestEntropy`]. Idempotent:
    /// only the first call seeds the key.
    pub fn on_entropy(&mut self, bytes: [u8; 16])
        requires
            old(self).wf(),
        ensures
            final(self)@ == old(self)@.seeded(bytes@),
            final(self).wf(),
    {
        if !self.host.isn.ready() {
            self.host.isn.seed(bytes);
            proof {
                lemma_ok_frame(old(self)@.host, self@.host);
            }
        }
    }

    /// A virtual timer fired.
    pub fn on_timer(&mut self, now: Instant, key: TimerKey)
        requires
            old(self).wf(),
        ensures
            final(self)@ == old(self)@.timer_fired(now, key),
            final(self).wf(),
    {
        match key {
            TimerKey::Conn { sock, kind } => self.host.on_conn_timer(now, sock, kind),
            TimerKey::Reasm { slot, generation } => self.on_reasm_timer(slot, generation),
        }
    }

    fn on_reasm_timer(&mut self, slot: u8, generation: u8)
        requires
            old(self).wf(),
        ensures
            forall|now: Instant|
                final(self)@ == #[trigger] old(self)@.timer_fired(
                    now,
                    TimerKey::Reasm { slot, generation },
                ),
            final(self).wf(),
    {
        proof {
            self.reasm.lemma_model_wf();
        }
        let i: usize = slot as usize;
        if i >= REASM_SLOTS {
            return;
        }
        // The runtime consumed whatever it had armed for this key; reflect
        // that regardless of whether we act on it.
        let consumed = match self.emitted_reasm_timers[i] {
            Some((g, _)) => g == generation,
            None => false,
        };
        if consumed {
            self.emitted_reasm_timers[i] = None;
        }
        if self.reasm.generation(i) == generation {
            self.reasm.on_timer(i);
        }
    }

    /// A whole IP datagram arrived from the link.
    pub fn on_datagram(&mut self, now: Instant, frame: &[u8])
        requires
            old(self).wf(),
        ensures
            final(self)@ == old(self)@.datagram_taken(now, frame@),
            final(self).wf(),
    {
        self.host.stats = StackStats {
            rx_datagrams: self.host.stats.rx_datagrams.saturating_add(1),
            ..self.host.stats
        };
        proof {
            lemma_ok_frame(old(self)@.host, self@.host);
        }
        if frame.len() > 0 && frame[0] / 16 == 4 {
            self.on_ipv4(now, frame);
        } else if frame.len() > 0 && frame[0] / 16 == 6 {
            self.on_ipv6(now, frame);
        } else {
            self.host.count_malformed();
        }
    }

    fn on_ipv4(&mut self, now: Instant, frame: &[u8])
        requires
            old(self).wf(),
        ensures
            final(self)@ == old(self)@.ipv4_taken(now, frame@),
            final(self).wf(),
    {
        proof {
            reveal(StackModel::ipv4_taken);
        }
        match ipv4::parse(frame) {
            Err(_) => self.host.count_malformed(),
            Ok((h, payload)) => {
                let src = IpAddr::V4(h.src);
                let dst = IpAddr::V4(h.dst);
                if !self.host.cfg.is_local(&dst) {
                    self.host.count_not_local();
                } else if h.is_fragment() {
                    let key = ReasmKey { src, dst, proto: h.proto, ident: h.ident as u32 };
                    self.on_fragment(now, key, h.frag_offset as u32, h.more_frags, payload);
                } else {
                    self.host.deliver(now, src, dst, h.proto, payload);
                }
            },
        }
    }

    fn on_ipv6(&mut self, now: Instant, frame: &[u8])
        requires
            old(self).wf(),
        ensures
            final(self)@ == old(self)@.ipv6_taken(now, frame@),
            final(self).wf(),
    {
        proof {
            reveal(StackModel::ipv6_taken);
        }
        match ipv6::parse(frame) {
            Err(_) => self.host.count_malformed(),
            Ok((h, payload)) => {
                let src = IpAddr::V6(h.src);
                let dst = IpAddr::V6(h.dst);
                if !self.host.cfg.is_local(&dst) {
                    self.host.count_not_local();
                    return;
                }
                match h.frag {
                    Some(f) => {
                        if f.offset != 0 || f.more {
                            let key = ReasmKey { src, dst, proto: f.next, ident: f.ident };
                            self.on_fragment(now, key, f.offset as u32, f.more, payload);
                        } else {
                            self.host.deliver(now, src, dst, f.next, payload);
                        }
                    },
                    None => self.host.deliver(now, src, dst, h.proto, payload),
                }
            },
        }
    }

    fn on_fragment(&mut self, now: Instant, key: ReasmKey, off: u32, more: bool, data: &[u8])
        requires
            old(self).wf(),
            key.src is V4 <==> key.dst is V4,
            old(self)@.host.cfg.owns(key.dst),
        ensures
            final(self)@ == old(self)@.fragment_taken(now, key, off, more, data@),
            final(self).wf(),
    {
        let timeout = self.host.cfg.reassembly_timeout;
        proof {
            reveal(StackModel::fragment_taken);
            self.reasm.lemma_model_wf();
            complete_slot_holds_the_key(self@.slots, now, timeout, key, off, more, data@);
        }
        if let ReasmResult::Complete { slot } = self.reasm.push(
            now,
            timeout,
            key,
            off,
            more,
            data,
        ) {
            proof {
                self.reasm.lemma_model_wf();
            }
            // The payload is borrowed from the reassembler while the other
            // part of the stack takes it.
            if let Some((key, payload)) = self.reasm.completed(slot) {
                self.host.deliver(now, key.src, key.dst, key.proto, payload);
            }
            self.reasm.release(slot);
        }
    }

    // ----- Application API -----

    /// Start accepting connections on `port` (any local address).
    pub fn listen(&mut self, port: u16) -> (r: Result<(), Error>)
        requires
            old(self).wf(),
        ensures
            ({
                let (m, res) = old(self)@.host.listening(port);
                &&& final(self)@ == old(self)@.with_host(m)
                &&& r == res
            }),
            final(self).wf(),
    {
        self.host.listen(port)
    }

    /// Stop accepting connections on `port` (existing connections live on).
    pub fn unlisten(&mut self, port: u16)
        requires
            old(self).wf(),
        ensures
            final(self)@ == old(self)@.with_host(old(self)@.host.unlistened(port)),
            final(self).wf(),
    {
        self.host.unlisten(port);
    }

    /// Active open to `remote` from an automatic local endpoint.
    pub fn connect(&mut self, now: Instant, remote: SocketAddr) -> (r: Result<SocketId, Error>)
        requires
            old(self).wf(),
        ensures
            ({
                let (m, res) = old(self)@.host.opened(now, remote);
                &&& final(self)@ == old(self)@.with_host(m)
                &&& r == res
            }),
            final(self).wf(),
    {
        self.host.connect(now, remote)
    }

    /// Active open with an explicit local endpoint.
    pub fn connect_from(&mut self, now: Instant, local: SocketAddr, remote: SocketAddr) -> (r: Result<
        SocketId,
        Error,
    >)
        requires
            old(self).wf(),
        ensures
            ({
                let (m, res) = old(self)@.host.opened_from(now, local, remote);
                &&& final(self)@ == old(self)@.with_host(m)
                &&& r == res
            }),
            final(self).wf(),
    {
        self.host.connect_from(now, local, remote)
    }

    /// Queue bytes for sending; returns how many were accepted.
    pub fn send(&mut self, sock: SocketId, data: &[u8]) -> (r: Result<usize, Error>)
        requires
            old(self).wf(),
        ensures
            ({
                let (m, res) = old(self)@.host.sent(sock, data@);
                &&& final(self)@ == old(self)@.with_host(m)
                &&& r == res
            }),
            final(self).wf(),
    {
        self.host.send(sock, data)
    }

    /// Read received bytes; `Ok(0)` means none pending (EOF is signaled via
    /// [`crate::AppEvent::PeerFinReceived`]).
    pub fn recv(&mut self, sock: SocketId, out: &mut [u8]) -> (r: Result<usize, Error>)
        requires
            old(self).wf(),
        ensures
            match old(self)@.host.conn_of(sock) {
                None => {
                    &&& r == Err::<usize, Error>(Error::NotFound)
                    &&& final(self)@ == old(self)@
                    &&& final(out)@ == old(out)@
                },
                Some(c) => {
                    let n = c.readable_into(old(out)@.len() as int);
                    &&& r == Ok::<usize, Error>(n as usize)
                    &&& final(out)@ == c.rcv.pending().take(n) + old(out)@.skip(n)
                    &&& final(self)@ == old(self)@.with_host(
                        old(self)@.host.with_conn(sock.index as int, Some(c.taken(n))),
                    )
                },
            },
            final(self).wf(),
    {
        self.host.recv(sock, out)
    }

    /// Graceful close: FIN after queued data; receiving continues.
    pub fn close(&mut self, now: Instant, sock: SocketId) -> (r: Result<(), Error>)
        requires
            old(self).wf(),
        ensures
            ({
                let (m, res) = old(self)@.host.shut(now, sock);
                &&& final(self)@ == old(self)@.with_host(m)
                &&& r == res
            }),
            final(self).wf(),
    {
        self.host.close(now, sock)
    }

    /// Abort: RST the peer and drop everything immediately.
    pub fn abort(&mut self, now: Instant, sock: SocketId) -> (r: Result<(), Error>)
        requires
            old(self).wf(),
        ensures
            ({
                let (m, res) = old(self)@.host.aborted(now, sock);
                &&& final(self)@ == old(self)@.with_host(m)
                &&& r == res
            }),
            final(self).wf(),
    {
        self.host.abort(now, sock)
    }

    /// Drain the next pending action. `tx` must be at least MTU bytes; when
    /// the result is [`Action::Transmit`], the datagram occupies
    /// `tx[..len]`. Call repeatedly until `None` after every event.
    pub fn poll_action(&mut self, now: Instant, tx: &mut [u8]) -> (r: Option<Action>)
        requires
            old(self).wf(),
            old(tx)@.len() >= old(self)@.host.cfg.mtu,
        ensures
            !(r matches Some(a) && a is Nothing),
            ({
                let (m, a, d) = old(self)@.polled(now);
                &&& final(self)@ == m
                &&& r == a
                &&& final(tx)@ == buffer_after(old(tx)@, d)
                &&& d matches Some(g) ==> g.len() <= old(self)@.host.cfg.mtu
                &&& transmits(r, d, final(tx)@)
                &&& r matches Some(Action::Transmit { len }) ==> (d matches Some(g) && g.len()
                    == len)
            }),
            final(self).wf(),
    {
        let first = self.host.poll_action_core(now, tx);
        if first.is_some() {
            return first;
        }
        // Quiescent: reconcile timers, free dead slots, surface anything
        // those steps queued.
        self.sweep(now);
        let ghost s = self@.host;
        let r = self.host.actions.pop_front();
        proof {
            assert(host::real_actions(s.actions)) by {
                reveal(CoreModel::ok);
            }
            host::lemma_real_actions(s.actions, Action::RequestEntropy);
            lemma_ok_frame(s, self@.host);
        }
        r
    }

    fn sweep(&mut self, now: Instant)
        requires
            old(self).wf(),
        ensures
            final(self)@ == old(self)@.swept(now),
            final(self).wf(),
    {
        proof {
            self.reasm.lemma_model_wf();
        }
        self.host.sweep_conns(now);
        let ghost a = self@;
        let mut slot: usize = 0;
        while slot < REASM_SLOTS
            invariant
                slot <= REASM_SLOTS,
                self.wf(),
                self@ == a.slots_reconciled(now, slot as nat),
            decreases REASM_SLOTS - slot,
        {
            self.sweep_reasm_slot(now, slot);
            slot += 1;
        }
    }

    fn sweep_reasm_slot(&mut self, now: Instant, slot: usize)
        requires
            old(self).wf(),
            slot < REASM_SLOTS,
        ensures
            final(self)@ == old(self)@.slot_reconciled(now, slot as int),
            final(self).wf(),
    {
        if self.cancel_predecessor(slot) {
            self.reconcile_reasm_timer(now, slot);
        }
    }

    /// A slot reallocated under backlog leaves the predecessor's timer armed
    /// in the runtime under a different key. Cancel the predecessor before
    /// arming the successor.
    fn cancel_predecessor(&mut self, slot: usize) -> (r: bool)
        requires
            old(self).wf(),
            slot < REASM_SLOTS,
        ensures
            (final(self)@, r) == old(self)@.predecessor_cancelled(slot as int),
            final(self).wf(),
    {
        proof {
            reveal(StackModel::predecessor_cancelled);
        }
        if let Some((old_gen, _)) = self.emitted_reasm_timers[slot] {
            if old_gen != self.reasm.generation(slot) {
                let key = TimerKey::Reasm { slot: slot as u8, generation: old_gen };
                proof {
                    host::lemma_queued_ok(self@.host, Action::CancelTimer { key });
                }
                if !self.host.queue_action(Action::CancelTimer { key }) {
                    // Retry next sweep.
                    return false;
                }
                self.emitted_reasm_timers[slot] = None;
            }
        }
        true
    }

    fn reconcile_reasm_timer(&mut self, now: Instant, slot: usize)
        requires
            old(self).wf(),
            slot < REASM_SLOTS,
        ensures
            final(self)@ == old(self)@.slot_timer_reconciled(now, slot as int),
            final(self).wf(),
    {
        proof {
            reveal(StackModel::slot_timer_reconciled);
        }
        let generation: u8 = self.reasm.generation(slot);
        let desired = self.reasm.deadline(slot);
        let told = match self.emitted_reasm_timers[slot] {
            Some((_, t)) => Some(t),
            None => None,
        };
        if desired == told {
            return;
        }
        let key = TimerKey::Reasm { slot: slot as u8, generation };
        let action = match desired {
            Some(d) => Action::StartTimer { key, after: d.saturating_since(now) },
            None => Action::CancelTimer { key },
        };
        proof {
            host::lemma_queued_ok(self@.host, action);
        }
        if self.host.queue_action(action) {
            self.emitted_reasm_timers[slot] = match desired {
                Some(d) => Some((generation, d)),
                None => None,
            };
        }
    }
}

} // verus!
