//! What ICMP errors about our own segments do: the path MTU, and hard errors.
use super::host::lemma_path_ok;
use super::laws::{lemma_datagram_v4_reads, lemma_datagram_v6_reads};
use super::model::{conn_index, counted, CoreModel, StackStats};
use super::polling::{datagram_v4, datagram_v6, tcp_datagram};
use super::StackModel;
use crate::ip::pmtu::{path_mtu, report_only_lowers};
use crate::tcp::conn::{ConnEvent, ConnModel, FxModel};
use crate::tcp::seq::SeqNr;
use crate::time::Instant;
use crate::types::{Action, AppEvent, CloseReason, IpAddr, SocketAddr};
use crate::wire::icmp::{
    message_v4, message_v4_length, message_v6, message_v6_length,
    quoted_segment_is_recognized, v4_round_trip, v6_round_trip,
};
use crate::wire::ipv4::Ipv4Emit;
use crate::wire::tcp::{segment_length, EmitModel, MAX_HEADER_LEN};
use crate::wire::{be16, be32, ipv4, ipv6};
use vstd::prelude::*;

verus! {

/// The larger of two numbers.
pub open spec fn at_least(a: int, b: int) -> int {
    if a < b {
        b
    } else {
        a
    }
}

/// The first connection between its two ends.
pub open spec fn is_first_between(m: CoreModel, idx: int) -> bool {
    &&& 0 <= idx < m.conns.len()
    &&& m.conns[idx] is Some
    &&& forall|j: int|
        0 <= j < idx ==> !((#[trigger] m.conns[j]) matches Some(c) && c.tcb.local
            == m.conns[idx]->0.tcb.local && c.tcb.remote == m.conns[idx]->0.tcb.remote)
}

/// A segment of the connection that is not acknowledged yet: between its ends,
/// with a sequence number in flight.
pub open spec fn in_flight_of(c: ConnModel, e: EmitModel) -> bool {
    &&& e.src_port == c.tcb.local.port
    &&& e.dst_port == c.tcb.remote.port
    &&& c.tcb.snd_una.distance_to(SeqNr(e.seq)) < c.tcb.snd_una.distance_to(c.tcb.snd_nxt)
    &&& e.header_len() <= MAX_HEADER_LEN
    &&& e.flags.0 < 64
}

/// A segment as we sent it, of which an error quotes the first `k` bytes of the
/// datagram.
pub struct Quote {
    /// The segment.
    pub e: EmitModel,
    /// Its text.
    pub text: Seq<u8>,
    /// Time to live of its datagram.
    pub ttl: u8,
    /// Identification of its datagram.
    pub ident: u16,
    /// How much is quoted.
    pub k: int,
}

impl Quote {
    /// The bytes quoted.
    pub open spec fn bytes(self, c: ConnModel) -> Seq<u8> {
        tcp_datagram(
            c.tcb.local.ip,
            c.tcb.remote.ip,
            self.e,
            self.text,
            self.ttl,
            self.ident,
        ).take(self.k)
    }

    /// It quotes a segment in flight of the connection, at least as far as its
    /// sequence number, in an error of at most the largest size.
    pub open spec fn of(self, c: ConnModel) -> bool {
        let head = if c.tcb.local.ip is V4 {
            20int
        } else {
            40
        };
        &&& c.tcb.local.ip is V4 <==> c.tcb.remote.ip is V4
        &&& in_flight_of(c, self.e)
        &&& self.e.header_len() + self.text.len() + head <= 65535
        &&& head + 8 <= self.k <= head + self.e.header_len() + self.text.len()
        &&& self.k <= 1400
    }
}

pub(crate) proof fn lemma_first_is_found(conns: Seq<Option<ConnModel>>, idx: int)
    requires
        0 <= idx < conns.len(),
        conns[idx] is Some,
        forall|j: int|
            0 <= j < idx ==> !((#[trigger] conns[j]) matches Some(c) && c.tcb.local
                == conns[idx]->0.tcb.local && c.tcb.remote == conns[idx]->0.tcb.remote),
    ensures
        conn_index(conns, conns[idx]->0.tcb.local, conns[idx]->0.tcb.remote) == idx,
    decreases idx,
{
    if idx > 0 {
        let rest = conns.drop_first();
        assert(rest[idx - 1] == conns[idx]);
        assert forall|j: int| 0 <= j < idx - 1 implies !((#[trigger] rest[j]) matches Some(c)
            && c.tcb.local == rest[idx - 1]->0.tcb.local && c.tcb.remote
            == rest[idx - 1]->0.tcb.remote) by {
            assert(rest[j] == conns[j + 1]);
        }
        lemma_first_is_found(rest, idx - 1);
        assert(conns[0] == conns[0]);
    }
}

/// With a received datagram counted.
pub open spec fn received(m: CoreModel) -> CoreModel {
    CoreModel {
        stats: StackStats { rx_datagrams: counted(m.stats.rx_datagrams), ..m.stats },
        ..m
    }
}

/// An ICMPv4 "destination unreachable" from a router to us.
pub open spec fn unreachable_v4(
    router: [u8; 4],
    us: [u8; 4],
    ttl: u8,
    ident: u16,
    code: u8,
    rest: [u8; 4],
    quote: Seq<u8>,
) -> Seq<u8> {
    datagram_v4(router, us, 1, ttl, ident, false, message_v4(3, code, rest, quote))
}

/// An ICMPv6 error from a router to us.
pub open spec fn error_v6(
    router: [u8; 16],
    us: [u8; 16],
    hop_limit: u8,
    kind: u8,
    code: u8,
    rest: [u8; 4],
    quote: Seq<u8>,
) -> Seq<u8> {
    datagram_v6(router, us, 58, hop_limit, message_v6(kind, code, rest, quote, router, us))
}

proof fn lemma_unreachable_v4_taken(
    m: StackModel,
    now: Instant,
    router: [u8; 4],
    us: [u8; 4],
    ttl: u8,
    ident: u16,
    code: u8,
    rest: [u8; 4],
    quote: Seq<u8>,
)
    requires
        m.host.cfg.owns(IpAddr::V4(us)),
        quote.len() <= 1400,
    ensures
        m.datagram_taken(now, unreachable_v4(router, us, ttl, ident, code, rest, quote))
            == m.with_host(received(m.host).quote4_taken(now, code, be16(rest@, 2), quote)),
{
    let msg = message_v4(3, code, rest, quote);
    let frame = datagram_v4(router, us, 1, ttl, ident, false, msg);
    message_v4_length(3, code, rest, quote);
    v4_round_trip(3, code, rest, quote);
    lemma_datagram_v4_reads(router, us, 1, ttl, ident, false, msg);
    assert(frame[0] == 0x45);
    let x = m.with_host(received(m.host));
    let (src, dst) = (IpAddr::V4(router), IpAddr::V4(us));
    assert(x.ipv4_taken(now, frame) == x.with_host(x.host.delivered(now, src, dst, 1, msg))) by {
        reveal(StackModel::ipv4_taken);
    }
    assert(x.host.delivered(now, src, dst, 1, msg) == x.host.icmp4_delivered(now, src, dst, msg))
        by {
        reveal(CoreModel::delivered);
        reveal(CoreModel::dispatched);
    }
    reveal(CoreModel::icmp4_delivered);
}

proof fn lemma_error_v6_taken(
    m: StackModel,
    now: Instant,
    router: [u8; 16],
    us: [u8; 16],
    hop_limit: u8,
    kind: u8,
    code: u8,
    rest: [u8; 4],
    quote: Seq<u8>,
)
    requires
        m.host.cfg.owns(IpAddr::V6(us)),
        quote.len() <= 1400,
        kind == 2 || (kind == 1 && code == 4),
    ensures
        ({
            let n = m.datagram_taken(now, error_v6(router, us, hop_limit, kind, code, rest, quote));
            &&& kind == 2 ==> n == m.with_host(
                received(m.host).quote6_taken(now, 4, be32(rest@, 0), quote),
            )
            &&& kind == 1 ==> n == m.with_host(received(m.host).quote6_taken(now, 255, 0, quote))
        }),
{
    let msg = message_v6(kind, code, rest, quote, router, us);
    let frame = datagram_v6(router, us, 58, hop_limit, msg);
    message_v6_length(kind, code, rest, quote, router, us);
    v6_round_trip(kind, code, rest, quote, router, us);
    lemma_datagram_v6_reads(router, us, 58, hop_limit, msg);
    assert(frame[0] == 0x60);
    let x = m.with_host(received(m.host));
    let (src, dst) = (IpAddr::V6(router), IpAddr::V6(us));
    assert(x.ipv6_taken(now, frame) == x.with_host(x.host.delivered(now, src, dst, 58, msg))) by {
        reveal(StackModel::ipv6_taken);
    }
    ipv6::upper_layer_payload_is_untouched(58, msg);
    assert(x.host.delivered(now, src, dst, 58, msg) == x.host.icmp6_delivered(now, src, dst, msg))
        by {
        reveal(CoreModel::delivered);
        reveal(CoreModel::dispatched);
    }
    reveal(CoreModel::icmp6_delivered);
}

proof fn lemma_quote4_found(m: CoreModel, now: Instant, idx: int, q: Quote, code: u8, mtu: u16)
    requires
        is_first_between(m, idx),
        m.conns[idx]->0.tcb.local.ip is V4,
        q.of(m.conns[idx]->0),
    ensures
        ({
            let c = m.conns[idx]->0;
            m.quote4_taken(now, code, mtu, q.bytes(c)) == m.error_reported(
                now,
                c.tcb.local,
                c.tcb.remote,
                SeqNr(q.e.seq),
                code,
                mtu as u32,
            )
        }),
{
    let c = m.conns[idx]->0;
    let (src, dst) = (c.tcb.local.ip, c.tcb.remote.ip);
    let seg = q.e.segment(src, dst, q.text);
    segment_length(q.e, src, dst, q.text);
    reveal(tcp_datagram);
    reveal(CoreModel::quote4_taken);
    match (src, dst) {
        (IpAddr::V4(s), IpAddr::V4(d)) => {
            let h = Ipv4Emit {
                src: s,
                dst: d,
                proto: 6,
                ttl: q.ttl,
                ident: q.ident,
                dont_frag: true,
                more_frags: false,
                frag_offset: 0,
            };
            ipv4::quoted_start_gives_the_ends_back(h, seg, q.k);
            quoted_segment_is_recognized(q.e, src, dst, q.text, q.k - 20);
        },
        _ => {},
    }
}

proof fn lemma_quote6_found(m: CoreModel, now: Instant, idx: int, q: Quote, code: u8, mtu: u32)
    requires
        is_first_between(m, idx),
        m.conns[idx]->0.tcb.local.ip is V6,
        q.of(m.conns[idx]->0),
    ensures
        ({
            let c = m.conns[idx]->0;
            m.quote6_taken(now, code, mtu, q.bytes(c)) == m.error_reported(
                now,
                c.tcb.local,
                c.tcb.remote,
                SeqNr(q.e.seq),
                code,
                mtu,
            )
        }),
{
    let c = m.conns[idx]->0;
    let (src, dst) = (c.tcb.local.ip, c.tcb.remote.ip);
    let seg = q.e.segment(src, dst, q.text);
    segment_length(q.e, src, dst, q.text);
    reveal(tcp_datagram);
    reveal(CoreModel::quote6_taken);
    match (src, dst) {
        (IpAddr::V6(s), IpAddr::V6(d)) => {
            ipv6::quoted_start_gives_the_ends_back(s, d, 6, q.ttl, seg, q.k);
            quoted_segment_is_recognized(q.e, src, dst, q.text, q.k - 40);
        },
        _ => {},
    }
}

/// The path to the peer of the connection in slot `idx` now carries datagrams
/// of `mtu` bytes at most, where the family requires at least `floor` and the
/// headers take `head`: neither the estimate for the peer's address nor the
/// connection counts on more, the connection's segments have exactly that size
/// if that is less than before, and what is in flight is sent again. It is no
/// loss, and no other connection is touched.
pub open spec fn path_is_lowered(
    m: CoreModel,
    n: CoreModel,
    now: Instant,
    idx: int,
    mtu: int,
    floor: int,
    head: int,
) -> bool {
    let c = m.conns[idx]->0;
    let d = n.conns[idx]->0;
    let size = at_least(mtu, floor);
    &&& path_mtu(n.pmtu, now, m.cfg.mtu, c.tcb.remote.ip) <= size
    &&& n.conns.len() == m.conns.len()
    &&& n.conns[idx] is Some
    &&& d.tcb.pmtu_mss <= size - head
    &&& size <= m.cfg.mtu && size - head < c.tcb.pmtu_mss ==> {
        &&& d.tcb.pmtu_mss == size - head
        &&& c.tcb.data_sent() > 0 ==> d.tcb.rexmit_now && d.tcb.rtt_sample is None
        &&& d.tcb.pmtu_expires == Some(now + crate::ip::pmtu::pmtu_ttl())
    }
    &&& size - head >= c.tcb.pmtu_mss ==> d == c
    &&& d.tcb.snd_una == c.tcb.snd_una && d.tcb.snd_nxt == c.tcb.snd_nxt && d.snd == c.snd
    &&& d.tcb.cc.ssthresh == c.tcb.cc.ssthresh && d.tcb.cc.cwnd >= c.tcb.cc.cwnd
    &&& d.tcb.state == c.tcb.state && d.tcb.recovery == c.tcb.recovery
    &&& forall|j: int|
        0 <= j < m.conns.len() && j != idx ==> #[trigger] n.conns[j] == m.conns[j]
}

proof fn lemma_report_lowers(m: CoreModel, now: Instant, idx: int, seq: SeqNr, mtu: u32)
    requires
        is_first_between(m, idx),
        m.pmtu.len() > 0,
        now.micros < u64::MAX,
        mtu >= 1,
        m.conns[idx]->0.tcb.pmtu_mss + (if m.conns[idx]->0.tcb.remote.ip is V4 {
            40int
        } else {
            60
        }) <= m.cfg.mtu,
        m.conns[idx]->0.tcb.snd_una.distance_to(seq) < m.conns[idx]->0.tcb.snd_una.distance_to(
            m.conns[idx]->0.tcb.snd_nxt,
        ),
    ensures
        ({
            let c = m.conns[idx]->0;
            let n = m.error_reported(now, c.tcb.local, c.tcb.remote, seq, 4, mtu);
            if c.tcb.remote.ip is V4 {
                path_is_lowered(m, n, now, idx, mtu as int, 576, 40)
            } else {
                path_is_lowered(m, n, now, idx, mtu as int, 1280, 60)
            }
        }),
{
    let c = m.conns[idx]->0;
    lemma_first_is_found(m.conns, idx);
    report_only_lowers(m.pmtu, now, m.cfg.mtu, c.tcb.remote.ip, mtu);
    reveal(CoreModel::error_reported);
    reveal(CoreModel::path_reported);
}

/// An ICMP "fragmentation needed" that quotes a segment in flight of one of our
/// connections lowers the path MTU to what it reports, and the connection's
/// segment size with it.
pub proof fn fragmentation_needed_lowers_the_path(
    m: StackModel,
    now: Instant,
    idx: int,
    q: Quote,
    router: [u8; 4],
    us: [u8; 4],
    ttl: u8,
    ident: u16,
    rest: [u8; 4],
)
    requires
        m.host.ok(),
        is_first_between(m.host, idx),
        m.host.conns[idx]->0.tcb.local.ip is V4,
        q.of(m.host.conns[idx]->0),
        m.host.cfg.owns(IpAddr::V4(us)),
        m.host.pmtu.len() > 0,
        now.micros < u64::MAX,
        be16(rest@, 2) >= 1,
    ensures
        ({
            let frame = unreachable_v4(
                router,
                us,
                ttl,
                ident,
                4,
                rest,
                q.bytes(m.host.conns[idx]->0),
            );
            path_is_lowered(
                m.host,
                m.datagram_taken(now, frame).host,
                now,
                idx,
                be16(rest@, 2) as int,
                576,
                40,
            )
        }),
{
    let c = m.host.conns[idx]->0;
    let r = received(m.host);
    lemma_path_ok(m.host, idx);
    lemma_quote_length(q, c);
    lemma_unreachable_v4_taken(m, now, router, us, ttl, ident, 4, rest, q.bytes(c));
    lemma_quote4_found(r, now, idx, q, 4, be16(rest@, 2));
    lemma_report_lowers(r, now, idx, SeqNr(q.e.seq), be16(rest@, 2) as u32);
}

/// An ICMPv6 "packet too big" does the same.
pub proof fn packet_too_big_lowers_the_path(
    m: StackModel,
    now: Instant,
    idx: int,
    q: Quote,
    router: [u8; 16],
    us: [u8; 16],
    hop_limit: u8,
    code: u8,
    rest: [u8; 4],
)
    requires
        m.host.ok(),
        is_first_between(m.host, idx),
        m.host.conns[idx]->0.tcb.local.ip is V6,
        q.of(m.host.conns[idx]->0),
        m.host.cfg.owns(IpAddr::V6(us)),
        m.host.pmtu.len() > 0,
        now.micros < u64::MAX,
        be32(rest@, 0) >= 1,
    ensures
        ({
            let frame = error_v6(
                router,
                us,
                hop_limit,
                2,
                code,
                rest,
                q.bytes(m.host.conns[idx]->0),
            );
            path_is_lowered(
                m.host,
                m.datagram_taken(now, frame).host,
                now,
                idx,
                be32(rest@, 0) as int,
                1280,
                60,
            )
        }),
{
    let c = m.host.conns[idx]->0;
    let r = received(m.host);
    lemma_path_ok(m.host, idx);
    lemma_quote_length(q, c);
    lemma_error_v6_taken(m, now, router, us, hop_limit, 2, code, rest, q.bytes(c));
    lemma_quote6_found(r, now, idx, q, 4, be32(rest@, 0));
    lemma_report_lowers(r, now, idx, SeqNr(q.e.seq), be32(rest@, 0));
}

proof fn lemma_quote_length(q: Quote, c: ConnModel)
    requires
        q.of(c),
    ensures
        q.bytes(c).len() == q.k,
{
    reveal(tcp_datagram);
    segment_length(q.e, c.tcb.local.ip, c.tcb.remote.ip, q.text);
}

/// The connection in slot `idx` is given up as unreachable and the application
/// is told, if there is room and it knows the connection.
pub open spec fn attempt_is_given_up(m: CoreModel, n: CoreModel, idx: int) -> bool {
    let c = m.conns[idx]->0;
    let told = Action::App(
        AppEvent::Closed { sock: m.sock_at(idx), reason: CloseReason::Unreachable },
    );
    &&& n.conns[idx] is Some
    &&& n.conns[idx]->0.tcb.state is Closed
    &&& n.conns[idx]->0.tcb.close_reason == Some(CloseReason::Unreachable)
    &&& c.tcb.reported || !c.tcb.passive ==> (m.actions.len() < 64 ==> n.actions
        == m.actions.push(told))
}

proof fn lemma_hard_error(m: CoreModel, now: Instant, idx: int, seq: SeqNr, code: u8)
    requires
        is_first_between(m, idx),
        code == 2 || code == 3 || code == 255,
        m.conns[idx]->0.tcb.snd_una.distance_to(seq) < m.conns[idx]->0.tcb.snd_una.distance_to(
            m.conns[idx]->0.tcb.snd_nxt,
        ),
    ensures
        ({
            let c = m.conns[idx]->0;
            let n = m.error_reported(now, c.tcb.local, c.tcb.remote, seq, code, 0);
            &&& c.tcb.state is SynSent || c.tcb.state is SynReceived ==> attempt_is_given_up(
                m,
                n,
                idx,
            )
            &&& !(c.tcb.state is SynSent || c.tcb.state is SynReceived) ==> n == m
        }),
{
    let c = m.conns[idx]->0;
    lemma_first_is_found(m.conns, idx);
    reveal(CoreModel::error_reported);
    reveal(CoreModel::path_failed);
    reveal(CoreModel::told);
    let (n, fx) = c.unreachable(FxModel::empty());
    let x = m.with_conn(idx, Some(n));
    if c.tcb.state is SynSent || c.tcb.state is SynReceived {
        let ev = ConnEvent::Closed(CloseReason::Unreachable);
        assert(fx.events.len() > 0 ==> fx.events.drop_last() =~= Seq::empty() && fx.events.last()
            == ev);
        reveal_with_fuel(CoreModel::told_all, 2);
    } else {
        assert(x.conns =~= m.conns);
        reveal_with_fuel(CoreModel::told_all, 2);
    }
}

/// A port or protocol that is unreachable ends an attempt to connect; once
/// connected, it changes nothing.
pub proof fn unreachable_ends_an_attempt(
    m: StackModel,
    now: Instant,
    idx: int,
    q: Quote,
    router: [u8; 4],
    us: [u8; 4],
    ttl: u8,
    ident: u16,
    code: u8,
    rest: [u8; 4],
)
    requires
        is_first_between(m.host, idx),
        m.host.conns[idx]->0.tcb.local.ip is V4,
        q.of(m.host.conns[idx]->0),
        m.host.cfg.owns(IpAddr::V4(us)),
        code == 2 || code == 3,
        be16(rest@, 2) == 0,
    ensures
        ({
            let c = m.host.conns[idx]->0;
            let frame = unreachable_v4(router, us, ttl, ident, code, rest, q.bytes(c));
            let n = m.datagram_taken(now, frame).host;
            &&& c.tcb.state is SynSent || c.tcb.state is SynReceived ==> attempt_is_given_up(
                m.host,
                n,
                idx,
            )
            &&& !(c.tcb.state is SynSent || c.tcb.state is SynReceived) ==> n == received(m.host)
        }),
{
    let c = m.host.conns[idx]->0;
    let r = received(m.host);
    lemma_quote_length(q, c);
    lemma_unreachable_v4_taken(m, now, router, us, ttl, ident, code, rest, q.bytes(c));
    lemma_quote4_found(r, now, idx, q, code, be16(rest@, 2));
    lemma_hard_error(r, now, idx, SeqNr(q.e.seq), code);
}

/// So does an ICMPv6 "port unreachable".
pub proof fn unreachable_ends_an_attempt_v6(
    m: StackModel,
    now: Instant,
    idx: int,
    q: Quote,
    router: [u8; 16],
    us: [u8; 16],
    hop_limit: u8,
    rest: [u8; 4],
)
    requires
        is_first_between(m.host, idx),
        m.host.conns[idx]->0.tcb.local.ip is V6,
        q.of(m.host.conns[idx]->0),
        m.host.cfg.owns(IpAddr::V6(us)),
    ensures
        ({
            let c = m.host.conns[idx]->0;
            let frame = error_v6(router, us, hop_limit, 1, 4, rest, q.bytes(c));
            let n = m.datagram_taken(now, frame).host;
            &&& c.tcb.state is SynSent || c.tcb.state is SynReceived ==> attempt_is_given_up(
                m.host,
                n,
                idx,
            )
            &&& !(c.tcb.state is SynSent || c.tcb.state is SynReceived) ==> n == received(m.host)
        }),
{
    let c = m.host.conns[idx]->0;
    let r = received(m.host);
    lemma_quote_length(q, c);
    lemma_error_v6_taken(m, now, router, us, hop_limit, 1, 4, rest, q.bytes(c));
    lemma_quote6_found(r, now, idx, q, 255, 0);
    lemma_hard_error(r, now, idx, SeqNr(q.e.seq), 255);
}

/// Other reasons why a destination is unreachable (the network, the host, a
/// failed source route) pass: they change nothing.
pub proof fn soft_errors_change_nothing(
    m: CoreModel,
    now: Instant,
    local: SocketAddr,
    remote: SocketAddr,
    seq: SeqNr,
    code: u8,
    mtu: u32,
)
    requires
        code == 0 || code == 1 || code == 5,
    ensures
        m.error_reported(now, local, remote, seq, code, mtu) == m,
{
    reveal(CoreModel::error_reported);
}

/// An error that quotes a number which is not in flight is forged or late, and
/// changes nothing, whatever it reports.
pub proof fn quotes_of_the_acknowledged_change_nothing(
    m: CoreModel,
    now: Instant,
    idx: int,
    seq: SeqNr,
    code: u8,
    mtu: u32,
)
    requires
        is_first_between(m, idx),
        ({
            let t = m.conns[idx]->0.tcb;
            &&& t.snd_una.distance_to(seq) >= t.snd_una.distance_to(t.snd_nxt)
            &&& t.snd_una.distance_to(seq) >= 1
        }),
    ensures
        ({
            let c = m.conns[idx]->0;
            m.error_reported(now, c.tcb.local, c.tcb.remote, seq, code, mtu) == m
        }),
{
    lemma_first_is_found(m.conns, idx);
    reveal(CoreModel::error_reported);
}

} // verus!
