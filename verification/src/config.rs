//! Compile-time capacities and runtime configuration.
//!
//! Capacities are `const` so worst-case memory of the whole stack is a
//! compile-time constant. Tunables that do not affect memory layout live in
//! [`Config`].
use crate::time::Duration;
use crate::types::IpAddr;
use crate::util::BoundedVec;
use vstd::prelude::*;

verus! {

/// Usual per-connection send buffer capacity in bytes.
///
/// A deployment picks any size by instantiating `Stack<CONNS, SND, RCV>`. This
/// one is sized for satellite/WAN bandwidth-delay products while keeping the
/// per-connection footprint bounded. With window scaling (RFC 7323) the full
/// buffer is usable as a window.
pub const SEND_BUF_SIZE: usize = 16 * 1024;

/// Usual per-connection receive buffer capacity in bytes (see
/// [`SEND_BUF_SIZE`]).
pub const RECV_BUF_SIZE: usize = 16 * 1024;

/// Maximum tracked out-of-order ranges on the receive side (also bounds the
/// SACK blocks we can generate; excess out-of-order data is dropped and will
/// be retransmitted by the peer).
pub const MAX_OOO_RANGES: usize = 8;

/// Maximum tracked SACKed ranges on the send side (scoreboard).
pub const MAX_SACK_RANGES: usize = 8;

/// Concurrent IP datagrams under reassembly.
pub const REASM_SLOTS: usize = 4;

/// Maximum reassembled datagram size in bytes (larger datagrams are dropped).
pub const REASM_BUF_SIZE: usize = 4096;

/// Maximum holes tracked per datagram under reassembly (RFC 815 hole list).
pub const REASM_MAX_HOLES: usize = 8;

/// Path-MTU cache entries.
pub const PMTU_CACHE_SIZE: usize = 16;

/// Maximum simultaneous listening ports.
pub const MAX_LISTENERS: usize = 8;

/// Pending action queue capacity. The runtime contract (drain
/// [`crate::Stack::poll_action`] until `None` after every event) bounds the
/// queue depth needed per event; this is sized with ample margin.
pub const ACTION_QUEUE_SIZE: usize = 64;

/// Pending stack-generated RST/reply descriptors (e.g. RST to closed ports).
pub const CTL_QUEUE_SIZE: usize = 8;

/// Maximum local addresses assigned to the stack.
pub const MAX_LOCAL_ADDRS: usize = 4;

/// Scratch capacity for one pending ICMP echo reply payload.
pub const ECHO_BUF_SIZE: usize = 1500;

/// Lowest MTU of a stack with IPv4 addresses only.
pub const MIN_MTU_V4: u16 = 576;

/// Lowest MTU of a stack with an IPv6 address (RFC 8200 section 5).
pub const MIN_MTU_V6: u16 = 1280;

/// Runtime configuration. All defaults are RFC-conservative.
#[derive(Debug, Clone, Copy)]
pub struct Config {
    /// Local IP addresses owned by this stack (both families allowed).
    pub local_addrs: BoundedVec<IpAddr, MAX_LOCAL_ADDRS>,
    /// Interface MTU in bytes (applies to both families).
    pub mtu: u16,
    /// IPv4 TTL / IPv6 hop limit for generated datagrams.
    pub ttl: u8,
    /// Maximum Segment Lifetime; TIME-WAIT lasts `2 * msl` (RFC 9293 section
    /// 3.4.1).
    pub msl: Duration,
    /// Initial retransmission timeout (RFC 6298 section 2: 1 second).
    pub rto_initial: Duration,
    /// Lower bound on the RTO (RFC 6298 section 2.4: SHOULD be 1 second).
    pub rto_min: Duration,
    /// Upper bound on the RTO (RFC 6298 section 2.5: MAY be at least 60
    /// seconds).
    pub rto_max: Duration,
    /// Retransmissions of a SYN / SYN-ACK before giving up.
    pub max_syn_retries: u8,
    /// Retransmissions of data / FIN before aborting (RFC 1122 R2).
    pub max_data_retries: u8,
    /// Unanswered zero-window probes before aborting. A peer that
    /// acknowledges, even without opening its window, resets the count.
    pub max_persist_retries: u8,
    /// Delayed-ACK timeout (RFC 1122 section 4.2.3.2: MUST be < 500 ms).
    pub delayed_ack_timeout: Duration,
    /// Enable delayed ACKs (RFC 1122 section 4.2.3.2 SHOULD).
    pub delayed_ack: bool,
    /// Enable Nagle's algorithm (RFC 9293 section 3.7.4 SHOULD).
    pub nagle: bool,
    /// Offer and use SACK (RFC 2018).
    pub sack: bool,
    /// Offer window scaling (RFC 7323 section 2). The option is sent on SYN /
    /// SYN-ACK; sending shift 0 still enables the peer's scaling toward us.
    pub offer_window_scale: bool,
    /// Receive window scale factor to advertise (RFC 7323 section 2.2,
    /// 0..=14).
    pub recv_window_scale: u8,
    /// Override the advertised MSS; `None` derives it from `mtu`.
    pub mss_override: Option<u16>,
    /// Fragment-reassembly timeout (RFC 1122 section 3.3.2: 60-120 s suggested
    /// upper; the default is lower to bound resource exposure).
    pub reassembly_timeout: Duration,
    /// Challenge-ACK rate limit per second (RFC 5961 section 10).
    pub challenge_acks_per_sec: u8,
    /// Idle timeout in FIN-WAIT-2 with a closed local side, to bound
    /// half-closed orphan lifetime (mirrors common practice). Zero disables
    /// it.
    pub fin_wait2_timeout: Duration,
    /// Answer ICMP/ICMPv6 echo requests (RFC 1122 section 3.2.2.6 MUST).
    pub answer_echo: bool,
}

impl Default for Config {
    fn default() -> (r: Self)
        ensures
            r.local_addrs.wf(),
            r.local_addrs@ == Seq::<IpAddr>::empty(),
            r.mtu == 1500,
            r.ttl == 64,
            r.msl.micros == 30_000_000,
            r.rto_initial.micros == 1_000_000,
            r.rto_min.micros == 1_000_000,
            r.rto_max.micros == 60_000_000,
            r.max_syn_retries == 6,
            r.max_data_retries == 10,
            r.max_persist_retries == 14,
            r.delayed_ack_timeout.micros == 200_000,
            r.delayed_ack && r.nagle && r.sack && r.offer_window_scale && r.answer_echo,
            r.recv_window_scale == 0,
            r.mss_override is None,
            r.reassembly_timeout.micros == 30_000_000,
            r.challenge_acks_per_sec == 10,
            r.fin_wait2_timeout.micros == 60_000_000,
    {
        Config {
            local_addrs: BoundedVec::new(),
            mtu: 1500,
            ttl: 64,
            msl: Duration::from_secs(30),
            rto_initial: Duration::from_secs(1),
            rto_min: Duration::from_secs(1),
            rto_max: Duration::from_secs(60),
            max_syn_retries: 6,
            max_data_retries: 10,
            max_persist_retries: 14,
            delayed_ack_timeout: Duration::from_millis(200),
            delayed_ack: true,
            nagle: true,
            sack: true,
            offer_window_scale: true,
            recv_window_scale: 0,
            mss_override: None,
            reassembly_timeout: Duration::from_secs(30),
            challenge_acks_per_sec: 10,
            fin_wait2_timeout: Duration::from_secs(60),
            answer_echo: true,
        }
    }
}

/// A number forced into a range.
pub open spec fn forced(x: int, lo: int, hi: int) -> int {
    if x < lo {
        lo
    } else if x > hi {
        hi
    } else {
        x
    }
}

/// The unicast addresses of a list.
pub open spec fn unicast_of(addrs: Seq<IpAddr>) -> Seq<IpAddr> {
    addrs.filter(|a: IpAddr| a.unicast_source())
}

impl Config {
    /// Whether some local address is an IPv6 one.
    pub open spec fn has_v6(addrs: Seq<IpAddr>) -> bool {
        exists|i: int| 0 <= i < addrs.len() && (#[trigger] addrs[i]) is V6
    }

    /// The lowest MTU for a set of local addresses.
    pub open spec fn mtu_floor(addrs: Seq<IpAddr>) -> u16 {
        if Self::has_v6(addrs) {
            MIN_MTU_V6
        } else {
            MIN_MTU_V4
        }
    }

    /// Every tunable is in its safe range, and every local address is
    /// unicast.
    pub open spec fn sane(self) -> bool {
        &&& forall|i: int|
            0 <= i < self.local_addrs@.len() ==> (#[trigger] self.local_addrs@[i]).unicast_source()
        &&& self.tunables_sane(self.local_addrs@)
    }

    /// Every tunable is in its safe range for these local addresses: an MTU
    /// that the families in use can work with, a TTL and retry budgets that
    /// are not zero, timeouts that neither spin nor hold resources for long,
    /// and the limits that RFC 1122 and RFC 7323 set.
    pub open spec fn tunables_sane(self, addrs: Seq<IpAddr>) -> bool {
        &&& self.mtu >= Self::mtu_floor(addrs)
        &&& self.ttl >= 1
        &&& 1_000 <= self.msl.micros <= 120_000_000
        &&& 1_000 <= self.rto_min.micros <= 60_000_000
        &&& self.rto_min.micros <= self.rto_max.micros <= 240_000_000
        &&& self.rto_min.micros <= self.rto_initial.micros <= self.rto_max.micros
        &&& self.max_syn_retries >= 1
        &&& self.max_data_retries >= 1
        &&& self.max_persist_retries >= 1
        &&& self.delayed_ack_timeout.micros <= 499_000
        &&& self.recv_window_scale <= 14
        &&& self.mss_override matches Some(m) ==> m >= 64
        &&& 1_000_000 <= self.reassembly_timeout.micros <= 120_000_000
    }

    /// Whether `addr` is one of the local addresses.
    pub open spec fn owns(self, addr: IpAddr) -> bool {
        self.local_addrs@.contains(addr)
    }

    /// Configuration with one local address and defaults otherwise.
    pub fn with_addr(addr: IpAddr) -> (r: Self)
        ensures
            r.local_addrs.wf(),
            r.local_addrs@ == seq![addr],
            addr.unicast_source() ==> r.sane(),
            r.mtu == 1500 && r.ttl == 64 && r.msl.micros == 30_000_000,
            r.rto_initial.micros == 1_000_000 && r.rto_min.micros == 1_000_000,
            r.rto_max.micros == 60_000_000,
            r.max_syn_retries == 6 && r.max_data_retries == 10 && r.max_persist_retries == 14,
            r.delayed_ack_timeout.micros == 200_000 && r.reassembly_timeout.micros == 30_000_000,
            r.delayed_ack && r.nagle && r.sack && r.offer_window_scale && r.answer_echo,
            r.recv_window_scale == 0 && r.mss_override is None && r.challenge_acks_per_sec == 10,
            r.fin_wait2_timeout.micros == 60_000_000,
    {
        let mut cfg = Config::default();
        let _ = cfg.local_addrs.push(addr);
        assert(cfg.local_addrs@ =~= seq![addr]);
        cfg
    }

    /// True if `addr` is one of our local addresses.
    pub fn is_local(&self, addr: &IpAddr) -> (r: bool)
        requires
            self.local_addrs.wf(),
        ensures
            r == self.owns(*addr),
    {
        let mut i: usize = 0;
        while i < self.local_addrs.len()
            invariant
                i <= self.local_addrs@.len(),
                self.local_addrs.wf(),
                forall|j: int| 0 <= j < i ==> self.local_addrs@[j] != *addr,
            decreases self.local_addrs@.len() - i,
        {
            if self.local_addrs.get(i) == *addr {
                assert(self.local_addrs@[i as int] == *addr);
                return true;
            }
            i += 1;
        }
        false
    }

    fn any_v6(&self) -> (r: bool)
        requires
            self.local_addrs.wf(),
        ensures
            r == Self::has_v6(self.local_addrs@),
    {
        let mut i: usize = 0;
        while i < self.local_addrs.len()
            invariant
                i <= self.local_addrs@.len(),
                self.local_addrs.wf(),
                forall|j: int| 0 <= j < i ==> !((#[trigger] self.local_addrs@[j]) is V6),
            decreases self.local_addrs@.len() - i,
        {
            if !self.local_addrs.get(i).is_v4() {
                assert(self.local_addrs@[i as int] is V6);
                return true;
            }
            i += 1;
        }
        false
    }

    /// The tunables forced into their safe ranges for the local addresses;
    /// everything else is left alone.
    pub open spec fn tunables_forced(self) -> Config {
        let rto_min = forced(self.rto_min.micros as int, 1_000, 60_000_000);
        let rto_max = forced(self.rto_max.micros as int, rto_min, 240_000_000);
        let rto_initial = forced(self.rto_initial.micros as int, rto_min, rto_max);
        let floor = Self::mtu_floor(self.local_addrs@) as int;
        Config {
            mtu: forced(self.mtu as int, floor, u16::MAX as int) as u16,
            ttl: forced(self.ttl as int, 1, 255) as u8,
            msl: forced_duration(self.msl, 1_000, 120_000_000),
            rto_min: Duration { micros: rto_min as u64 },
            rto_max: Duration { micros: rto_max as u64 },
            rto_initial: Duration { micros: rto_initial as u64 },
            max_syn_retries: forced(self.max_syn_retries as int, 1, 255) as u8,
            max_data_retries: forced(self.max_data_retries as int, 1, 255) as u8,
            max_persist_retries: forced(self.max_persist_retries as int, 1, 255) as u8,
            delayed_ack_timeout: forced_duration(self.delayed_ack_timeout, 0, 499_000),
            recv_window_scale: forced(self.recv_window_scale as int, 0, 14) as u8,
            mss_override: match self.mss_override {
                Some(m) => Some(forced(m as int, 64, u16::MAX as int) as u16),
                None => None,
            },
            reassembly_timeout: forced_duration(self.reassembly_timeout, 1_000_000, 120_000_000),
            ..self
        }
    }

    /// Drop local addresses that are not unicast and force every tunable into
    /// its safe range, so a misconfiguration degrades rather than panics,
    /// stalls, or leaks. Returns true if anything had to change.
    pub fn normalize(&mut self) -> (changed: bool)
        requires
            old(self).local_addrs.wf(),
        ensures
            final(self).local_addrs.wf(),
            final(self).sane(),
            final(self).local_addrs@ == unicast_of(old(self).local_addrs@),
            final(self).local_addrs.store() == unicast_of(old(self).local_addrs@) + old(
                self,
            ).local_addrs.store().skip(unicast_of(old(self).local_addrs@).len() as int),
            *final(self) == (Config { local_addrs: final(self).local_addrs, ..*old(self) }).tunables_forced(),
            changed == !old(self).sane(),
    {
        let ghost addrs = self.local_addrs@;
        let before: usize = self.local_addrs.len();
        let keep = |a: &IpAddr| -> (b: bool)
            ensures
                b == a.unicast_source(),
            { a.is_unicast_source() };
        let ghost p = |a: IpAddr| a.unicast_source();
        self.local_addrs.retain(keep);
        assert(self.local_addrs@ == addrs.filter(p));
        proof {
            lemma_filter_unicast(addrs);
        }
        let dropped = self.local_addrs.len() != before;
        let forced = self.force_tunables();
        dropped || forced
    }

    fn force_tunables(&mut self) -> (changed: bool)
        requires
            old(self).local_addrs.wf(),
        ensures
            *final(self) == old(self).tunables_forced(),
            final(self).tunables_sane(old(self).local_addrs@),
            changed == !old(self).tunables_sane(old(self).local_addrs@),
    {
        let floor: u16 = if self.any_v6() {
            MIN_MTU_V6
        } else {
            MIN_MTU_V4
        };
        let rto_min = force(self.rto_min, 1_000, 60_000_000);
        let rto_max = force(self.rto_max, rto_min.micros, 240_000_000);
        let new = Config {
            mtu: at_least(self.mtu, floor),
            ttl: not_zero(self.ttl),
            msl: force(self.msl, 1_000, 120_000_000),
            rto_min,
            rto_max,
            rto_initial: force(self.rto_initial, rto_min.micros, rto_max.micros),
            max_syn_retries: not_zero(self.max_syn_retries),
            max_data_retries: not_zero(self.max_data_retries),
            max_persist_retries: not_zero(self.max_persist_retries),
            delayed_ack_timeout: force(self.delayed_ack_timeout, 0, 499_000),
            recv_window_scale: if self.recv_window_scale > 14 {
                14
            } else {
                self.recv_window_scale
            },
            mss_override: match self.mss_override {
                Some(m) => Some(at_least(m, 64)),
                None => None,
            },
            reassembly_timeout: force(self.reassembly_timeout, 1_000_000, 120_000_000),
            ..*self
        };
        let same = new.mtu == self.mtu && new.ttl == self.ttl && new.msl == self.msl && new.rto_min
            == self.rto_min && new.rto_max == self.rto_max && new.rto_initial == self.rto_initial
            && new.max_syn_retries == self.max_syn_retries && new.max_data_retries
            == self.max_data_retries && new.max_persist_retries == self.max_persist_retries
            && new.delayed_ack_timeout == self.delayed_ack_timeout && new.recv_window_scale
            == self.recv_window_scale && new.mss_override == self.mss_override
            && new.reassembly_timeout == self.reassembly_timeout;
        *self = new;
        !same
    }
}

/// A duration forced into a range of microseconds.
pub open spec fn forced_duration(d: Duration, lo: int, hi: int) -> Duration {
    Duration { micros: forced(d.micros as int, lo, hi) as u64 }
}

/// A duration forced into a range of microseconds.
fn force(d: Duration, lo: u64, hi: u64) -> (r: Duration)
    requires
        lo <= hi,
    ensures
        r == forced_duration(d, lo as int, hi as int),
{
    if d.micros < lo {
        Duration { micros: lo }
    } else if d.micros > hi {
        Duration { micros: hi }
    } else {
        d
    }
}

fn at_least(x: u16, lo: u16) -> (r: u16)
    ensures
        r == forced(x as int, lo as int, u16::MAX as int),
{
    if x < lo {
        lo
    } else {
        x
    }
}

fn not_zero(x: u8) -> (r: u8)
    ensures
        r == forced(x as int, 1, 255),
{
    if x < 1 {
        1
    } else {
        x
    }
}

proof fn lemma_filter_unicast(addrs: Seq<IpAddr>)
    ensures
        unicast_of(addrs).len() <= addrs.len(),
        forall|i: int|
            0 <= i < unicast_of(addrs).len() ==> (#[trigger] unicast_of(
                addrs,
            )[i]).unicast_source(),
        unicast_of(addrs).len() == addrs.len() <==> (forall|i: int|
            0 <= i < addrs.len() ==> (#[trigger] addrs[i]).unicast_source()),
        unicast_of(addrs).len() == addrs.len() ==> unicast_of(addrs) == addrs,
    decreases addrs.len(),
{
    reveal(Seq::filter);
    if addrs.len() > 0 {
        let t = addrs.drop_last();
        let x = addrs.last();
        lemma_filter_unicast(t);
        assert(forall|i: int| 0 <= i < t.len() ==> t[i] == addrs[i]);
        if x.unicast_source() {
            let u = unicast_of(t).push(x);
            assert(unicast_of(addrs) =~= u);
            assert(forall|i: int| 0 <= i < unicast_of(t).len() ==> u[i] == unicast_of(t)[i]);
            if unicast_of(addrs).len() == addrs.len() {
                assert(unicast_of(addrs) =~= addrs);
                assert forall|i: int| 0 <= i < addrs.len() implies (
                #[trigger] addrs[i]).unicast_source() by {
                    if i < t.len() {
                        assert(t[i].unicast_source());
                    }
                }
            }
        } else {
            assert(unicast_of(addrs) =~= unicast_of(t));
            assert(!addrs[addrs.len() - 1].unicast_source());
        }
    }
}

/// Forcing leaves a value in its range alone, and moves another one to the
/// nearest bound; nothing that is not a tunable changes.
pub proof fn forcing_moves_to_the_nearest_bound(c: Config)
    ensures
        ({
            let f = c.tunables_forced();
            let floor = if exists|i: int|
                0 <= i < c.local_addrs@.len() && (#[trigger] c.local_addrs@[i]) is V6 {
                1280int
            } else {
                576
            };
            &&& f.mtu == if c.mtu < floor {
                floor
            } else {
                c.mtu as int
            }
            &&& f.ttl == if c.ttl == 0 {
                1
            } else {
                c.ttl as int
            }
            &&& 1_000 <= c.msl.micros <= 120_000_000 ==> f.msl == c.msl
            &&& c.msl.micros > 120_000_000 ==> f.msl.micros == 120_000_000
            &&& c.msl.micros < 1_000 ==> f.msl.micros == 1_000
            &&& 1_000 <= c.rto_min.micros <= 60_000_000 ==> f.rto_min == c.rto_min
            &&& c.rto_min.micros < 1_000 ==> f.rto_min.micros == 1_000
            &&& c.rto_min.micros > 60_000_000 ==> f.rto_min.micros == 60_000_000
            &&& f.rto_min.micros <= c.rto_max.micros <= 240_000_000 ==> f.rto_max == c.rto_max
            &&& c.rto_max.micros > 240_000_000 ==> f.rto_max.micros == 240_000_000
            &&& c.rto_max.micros < f.rto_min.micros ==> f.rto_max == f.rto_min
            &&& f.rto_min.micros <= c.rto_initial.micros <= f.rto_max.micros ==> f.rto_initial
                == c.rto_initial
            &&& c.rto_initial.micros < f.rto_min.micros ==> f.rto_initial == f.rto_min
            &&& c.rto_initial.micros > f.rto_max.micros ==> f.rto_initial == f.rto_max
            &&& c.max_data_retries > 0 ==> f.max_data_retries == c.max_data_retries
            &&& c.max_syn_retries > 0 ==> f.max_syn_retries == c.max_syn_retries
            &&& c.max_persist_retries > 0 ==> f.max_persist_retries == c.max_persist_retries
            &&& c.delayed_ack_timeout.micros <= 499_000 ==> f.delayed_ack_timeout
                == c.delayed_ack_timeout
            &&& c.recv_window_scale <= 14 ==> f.recv_window_scale == c.recv_window_scale
            &&& f.nagle == c.nagle && f.sack == c.sack && f.delayed_ack == c.delayed_ack
            &&& f.answer_echo == c.answer_echo && f.local_addrs == c.local_addrs
            &&& f.challenge_acks_per_sec == c.challenge_acks_per_sec
            &&& f.offer_window_scale == c.offer_window_scale
        }),
{
}

} // verus!
