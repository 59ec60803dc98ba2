//! What the stack does for those it talks to: whom segments reach, who is
//! accepted, refused and answered, and what the application can ask for.
use super::errors::{is_first_between, lemma_first_is_found, received};
use super::laws::{
    carries_segment, chosen_ports_are_free, datagram_v4_reads, datagram_v6_reads, lemma_datagram_v4_reads,
    lemma_datagram_v6_reads, sent_segments_parse_back_v4,
    sent_segments_parse_back_v6,
};
use super::model::{conn_index, counted, free_index, CoreModel, CtlSegment, StackStats};
use super::polling::{
    ctl_segment, datagram_v4, datagram_v6, plan_segment, plan_text, tcp_datagram,
};
use super::StackModel;
use crate::ip::pmtu::path_mtu;
use crate::ip::reasm::{pushed, ReasmResult};
use crate::ip::ReasmKey;
use crate::tcp::conn::input::Segment;
use crate::tcp::conn::{ConnEvent, ConnModel, FxModel, Timers};
use crate::tcp::isn::isn_value;
use crate::tcp::seq::SeqNr;
use crate::time::Instant;
use crate::types::{AppEvent, CloseReason, Error, IpAddr, SocketAddr, SocketId, TimerKey, TimerKind};
use crate::util::ring_at;
use crate::wire::icmp::{
    message_v4, message_v4_length, message_v6, message_v6_length, v4_round_trip, v6_round_trip,
};
use crate::wire::ipv4::Ipv4Emit;
use crate::wire::tcp::{EmitModel, MAX_HEADER_LEN};
use crate::wire::{ipv4, ipv6};
use vstd::prelude::*;

verus! {

/// A segment from a peer to us, as it travels: between two addresses of one
/// family, the first one a possible source and not ours, the second one ours.
pub open spec fn reaches_us(m: CoreModel, src: IpAddr, dst: IpAddr, e: EmitModel, text: Seq<u8>) -> bool {
    &&& src is V4 <==> dst is V4
    &&& src.unicast_source() && !m.cfg.owns(src)
    &&& m.cfg.owns(dst)
    &&& e.src_port != 0 && e.dst_port != 0
    &&& e.header_len() <= MAX_HEADER_LEN
    &&& e.options.sack_blocks.len() <= 4
    &&& e.options.window_scale matches Some(s) ==> s <= 14
    &&& e.flags.0 < 64
    &&& 40 + e.header_len() + text.len() <= u16::MAX
}

/// The segment as the connection gets it.
pub open spec fn as_received(e: EmitModel, text: Seq<u8>) -> Segment {
    Segment {
        seq: SeqNr(e.seq),
        ack: SeqNr(e.ack),
        flags: e.flags,
        window: e.window,
        opts: e.options,
        payload: text,
    }
}

proof fn lemma_frame_starts(src: IpAddr, dst: IpAddr, e: EmitModel, text: Seq<u8>, ttl: u8, ident: u16)
    requires
        src is V4 <==> dst is V4,
    ensures
        ({
            let frame = tcp_datagram(src, dst, e, text, ttl, ident);
            &&& frame.len() > 0
            &&& frame[0] == if src is V4 {
                0x45u8
            } else {
                0x60u8
            }
        }),
{
    reveal(tcp_datagram);
}

proof fn lemma_frame_v4_taken(
    x: StackModel,
    now: Instant,
    s: [u8; 4],
    d: [u8; 4],
    frame: Seq<u8>,
    body: Seq<u8>,
)
    requires
        datagram_v4_reads(frame, s, d, 6, body),
        x.host.cfg.owns(IpAddr::V4(d)),
    ensures
        x.ipv4_taken(now, frame) == x.with_host(
            x.host.tcp_delivered(now, IpAddr::V4(s), IpAddr::V4(d), body),
        ),
{
    reveal(StackModel::ipv4_taken);
    reveal(CoreModel::delivered);
    reveal(CoreModel::dispatched);
}

proof fn lemma_frame_v6_taken(
    x: StackModel,
    now: Instant,
    s: [u8; 16],
    d: [u8; 16],
    frame: Seq<u8>,
    body: Seq<u8>,
)
    requires
        datagram_v6_reads(frame, s, d, 6, body),
        x.host.cfg.owns(IpAddr::V6(d)),
    ensures
        x.ipv6_taken(now, frame) == x.with_host(
            x.host.tcp_delivered(now, IpAddr::V6(s), IpAddr::V6(d), body),
        ),
{
    ipv6::upper_layer_payload_is_untouched(6, body);
    reveal(StackModel::ipv6_taken);
    reveal(CoreModel::delivered);
    reveal(CoreModel::dispatched);
}

proof fn lemma_body_routed(
    x: CoreModel,
    now: Instant,
    src: IpAddr,
    dst: IpAddr,
    e: EmitModel,
    text: Seq<u8>,
    body: Seq<u8>,
)
    requires
        reaches_us(x, src, dst, e, text),
        carries_segment(body, src, dst, e, text),
    ensures
        x.tcp_delivered(now, src, dst, body) == x.segment_routed(
            now,
            SocketAddr { ip: dst, port: e.dst_port },
            SocketAddr { ip: src, port: e.src_port },
            as_received(e, text),
        ),
{
    reveal(CoreModel::tcp_delivered);
}

proof fn lemma_segment_delivered(
    m: StackModel,
    now: Instant,
    src: IpAddr,
    dst: IpAddr,
    e: EmitModel,
    text: Seq<u8>,
    ttl: u8,
    ident: u16,
)
    requires
        reaches_us(m.host, src, dst, e, text),
    ensures
        m.datagram_taken(now, tcp_datagram(src, dst, e, text, ttl, ident)) == m.with_host(
            received(m.host).segment_routed(
                now,
                SocketAddr { ip: dst, port: e.dst_port },
                SocketAddr { ip: src, port: e.src_port },
                as_received(e, text),
            ),
        ),
{
    let frame = tcp_datagram(src, dst, e, text, ttl, ident);
    let x = m.with_host(received(m.host));
    let body = e.segment(src, dst, text);
    lemma_frame_starts(src, dst, e, text, ttl, ident);
    match (src, dst) {
        (IpAddr::V4(s), IpAddr::V4(d)) => {
            sent_segments_parse_back_v4(s, d, e, text, ttl, ident);
            lemma_frame_v4_taken(x, now, s, d, frame, body);
        },
        (IpAddr::V6(s), IpAddr::V6(d)) => {
            sent_segments_parse_back_v6(s, d, e, text, ttl, ident);
            lemma_frame_v6_taken(x, now, s, d, frame, body);
        },
        _ => {},
    }
    lemma_body_routed(x.host, now, src, dst, e, text, body);
}

/// With a segment counted as well.
pub open spec fn segment_received(m: CoreModel) -> CoreModel {
    let r = received(m);
    CoreModel { stats: StackStats { segs_rx: counted(r.stats.segs_rx), ..r.stats }, ..r }
}

/// A segment reaches the connection between its ends, whatever its addresses'
/// family, and no other one.
pub proof fn segments_reach_their_connection(
    m: StackModel,
    now: Instant,
    idx: int,
    e: EmitModel,
    text: Seq<u8>,
    ttl: u8,
    ident: u16,
)
    requires
        is_first_between(m.host, idx),
        reaches_us(
            m.host,
            m.host.conns[idx]->0.tcb.remote.ip,
            m.host.conns[idx]->0.tcb.local.ip,
            e,
            text,
        ),
        e.src_port == m.host.conns[idx]->0.tcb.remote.port,
        e.dst_port == m.host.conns[idx]->0.tcb.local.port,
    ensures
        ({
            let c = m.host.conns[idx]->0;
            let frame = tcp_datagram(c.tcb.remote.ip, c.tcb.local.ip, e, text, ttl, ident);
            let n = m.datagram_taken(now, frame).host;
            let (d, fx) = c.arrived(
                now,
                as_received(e, text),
                m.host.snd_cap as int,
                FxModel::empty(),
            );
            fx == FxModel::empty() ==> n == segment_received(m.host).with_conn(idx, Some(d))
        }),
{
    let c = m.host.conns[idx]->0;
    lemma_segment_delivered(m, now, c.tcb.remote.ip, c.tcb.local.ip, e, text, ttl, ident);
    lemma_first_is_found(m.host.conns, idx);
    reveal(CoreModel::segment_routed);
    reveal(CoreModel::segment_taken);
    reveal_with_fuel(CoreModel::told_all, 1);
}

proof fn lemma_free_is_found(conns: Seq<Option<ConnModel>>, idx: int)
    requires
        0 <= idx < conns.len(),
        conns[idx] is None,
        forall|j: int| 0 <= j < idx ==> (#[trigger] conns[j]) is Some,
    ensures
        free_index(conns) == idx,
    decreases idx,
{
    if idx > 0 {
        let rest = conns.drop_first();
        assert(conns[0] is Some);
        assert forall|j: int| 0 <= j < idx - 1 implies (#[trigger] rest[j]) is Some by {
            assert(rest[j] == conns[j + 1]);
        }
        lemma_free_is_found(rest, idx - 1);
    }
}

proof fn lemma_none_is_found(
    conns: Seq<Option<ConnModel>>,
    local: SocketAddr,
    remote: SocketAddr,
)
    requires
        forall|j: int|
            0 <= j < conns.len() ==> !((#[trigger] conns[j]) matches Some(c) && c.tcb.local == local
                && c.tcb.remote == remote),
    ensures
        conn_index(conns, local, remote) == conns.len(),
    decreases conns.len(),
{
    if conns.len() > 0 {
        let rest = conns.drop_first();
        assert(!(conns[0] matches Some(c) && c.tcb.local == local && c.tcb.remote == remote));
        assert forall|j: int| 0 <= j < rest.len() implies !((#[trigger] rest[j]) matches Some(c)
            && c.tcb.local == local && c.tcb.remote == remote) by {
            assert(rest[j] == conns[j + 1]);
        }
        lemma_none_is_found(rest, local, remote);
    }
}

/// No connection is between these ends.
pub open spec fn unconnected(m: CoreModel, local: SocketAddr, remote: SocketAddr) -> bool {
    forall|j: int|
        0 <= j < m.conns.len() ==> !((#[trigger] m.conns[j]) matches Some(c) && c.tcb.local == local
            && c.tcb.remote == remote)
}

/// The first free slot.
pub open spec fn is_first_free(m: CoreModel, idx: int) -> bool {
    &&& 0 <= idx < m.conns.len()
    &&& m.conns[idx] is None
    &&& forall|j: int| 0 <= j < idx ==> (#[trigger] m.conns[j]) is Some
}

/// A SYN to a port that is listened on opens a connection between its ends, in a
/// free slot, that has taken the SYN in and will answer it; no other connection
/// is touched.
pub proof fn syn_to_a_listener_opens_a_connection(
    m: StackModel,
    now: Instant,
    src: IpAddr,
    dst: IpAddr,
    e: EmitModel,
    idx: int,
    ttl: u8,
    ident: u16,
)
    requires
        reaches_us(m.host, src, dst, e, Seq::empty()),
        e.flags.syn() && !e.flags.ack() && !e.flags.rst(),
        m.host.listeners.contains(e.dst_port),
        m.host.key is Some,
        unconnected(
            m.host,
            SocketAddr { ip: dst, port: e.dst_port },
            SocketAddr { ip: src, port: e.src_port },
        ),
        is_first_free(m.host, idx),
    ensures
        ({
            let frame = tcp_datagram(src, dst, e, Seq::empty(), ttl, ident);
            let n = m.datagram_taken(now, frame).host;
            &&& n.conns[idx] matches Some(c) && {
                &&& c.tcb.local == SocketAddr { ip: dst, port: e.dst_port }
                &&& c.tcb.remote == SocketAddr { ip: src, port: e.src_port }
                &&& c.tcb.state is SynReceived
                &&& c.tcb.irs == SeqNr(e.seq) && c.tcb.rcv_nxt == SeqNr(e.seq).add(1)
                &&& c.tcb.snd_wnd == e.window
                &&& c.tcb.syn_pending
                &&& c.tcb.iss == isn_value(m.host.key->0, now, c.tcb.local, c.tcb.remote)
                &&& c.tcb.params == m.host.params_for(now, src)
                &&& c.rcv.window.len() == m.host.rcv_cap
            }
            &&& forall|j: int|
                0 <= j < m.host.conns.len() && j != idx ==> #[trigger] n.conns[j]
                    == m.host.conns[j]
            &&& n.actions == m.host.actions && n.ctl == m.host.ctl
        }),
{
    let local = SocketAddr { ip: dst, port: e.dst_port };
    let remote = SocketAddr { ip: src, port: e.src_port };
    lemma_segment_delivered(m, now, src, dst, e, Seq::empty(), ttl, ident);
    lemma_none_is_found(m.host.conns, local, remote);
    lemma_free_is_found(m.host.conns, idx);
    reveal(CoreModel::segment_routed);
    reveal(CoreModel::syn_accepted);
    assert(segment_received(m.host).params_for(now, src) == m.host.params_for(now, src)) by {
        reveal(CoreModel::params_for);
    }
}

/// A segment that no connection and no listener takes is refused: unless it is
/// itself a reset, a reset is queued from its destination to its source, while
/// the budget lasts. One that acknowledges something is reset at that number,
/// another one by a reset that acknowledges all of it.
pub proof fn stray_segments_are_refused(
    m: StackModel,
    now: Instant,
    src: IpAddr,
    dst: IpAddr,
    e: EmitModel,
    text: Seq<u8>,
    ttl: u8,
    ident: u16,
)
    requires
        reaches_us(m.host, src, dst, e, text),
        unconnected(
            m.host,
            SocketAddr { ip: dst, port: e.dst_port },
            SocketAddr { ip: src, port: e.src_port },
        ),
        !m.host.listeners.contains(e.dst_port) || e.flags.ack() || !e.flags.syn(),
        !e.flags.rst(),
        m.host.cfg.challenge_acks_per_sec > 0,
        m.host.challenge_tokens > 0,
        now.micros < m.host.challenge_refill_at.micros,
        m.host.ctl.len() < 8,
    ensures
        ({
            let frame = tcp_datagram(src, dst, e, text, ttl, ident);
            let n = m.datagram_taken(now, frame).host;
            &&& n.conns == m.host.conns
            &&& n.challenge_tokens == m.host.challenge_tokens - 1
            &&& n.ctl.len() == m.host.ctl.len() + 1
            &&& n.ctl.drop_last() == m.host.ctl
            &&& n.ctl.last().local == SocketAddr { ip: dst, port: e.dst_port }
            &&& n.ctl.last().remote == SocketAddr { ip: src, port: e.src_port }
            &&& e.flags.ack() ==> n.ctl.last().seq == SeqNr(e.ack) && n.ctl.last().ack is None
            &&& !e.flags.ack() ==> {
                let units = text.len() + (if e.flags.syn() {
                    1int
                } else {
                    0
                }) + (if e.flags.fin() {
                    1int
                } else {
                    0
                });
                n.ctl.last().seq == SeqNr(0) && n.ctl.last().ack == Some(
                    SeqNr(e.seq).add(units as u32),
                )
            }
        }),
{
    let local = SocketAddr { ip: dst, port: e.dst_port };
    let remote = SocketAddr { ip: src, port: e.src_port };
    lemma_segment_delivered(m, now, src, dst, e, text, ttl, ident);
    lemma_none_is_found(m.host.conns, local, remote);
    reveal(CoreModel::segment_routed);
    reveal(CoreModel::segment_refused);
    reveal(CoreModel::token_taken);
    let n = m.datagram_taken(now, tcp_datagram(src, dst, e, text, ttl, ident)).host;
    assert(n.ctl.drop_last() =~= m.host.ctl);
}

/// A ping.
pub open spec fn ping_v4(
    them: [u8; 4],
    us: [u8; 4],
    ttl: u8,
    ident: u16,
    rest: [u8; 4],
    body: Seq<u8>,
) -> Seq<u8> {
    datagram_v4(them, us, 1, ttl, ident, false, message_v4(8, 0, rest, body))
}

/// A ping, with IPv6.
pub open spec fn ping_v6(
    them: [u8; 16],
    us: [u8; 16],
    hop_limit: u8,
    rest: [u8; 4],
    body: Seq<u8>,
) -> Seq<u8> {
    datagram_v6(them, us, 58, hop_limit, message_v6(128, 0, rest, body, them, us))
}

/// Nothing else is to be handed out.
pub open spec fn idle(m: CoreModel) -> bool {
    &&& !m.entropy_request_pending
    &&& m.actions.len() == 0
    &&& m.ctl.len() == 0
    &&& m.echo is None
}

/// A ping is answered by the next poll: with the same identifier, sequence
/// number and data, from the address that was asked to the one that asked.
pub proof fn pings_are_answered_v4(
    m: StackModel,
    now: Instant,
    them: [u8; 4],
    us: [u8; 4],
    ttl: u8,
    ident: u16,
    rest: [u8; 4],
    body: Seq<u8>,
)
    requires
        idle(m.host),
        m.host.cfg.answer_echo,
        m.host.cfg.owns(IpAddr::V4(us)),
        IpAddr::V4(them).unicast_source() && !m.host.cfg.owns(IpAddr::V4(them)),
        body.len() + 28 <= m.host.cfg.mtu,
        body.len() <= 1500,
        m.host.echo_buf.len() == 1500,
    ensures
        ({
            let n = m.datagram_taken(now, ping_v4(them, us, ttl, ident, rest, body));
            n.host.drained(now).2 matches Some(d) && exists|id: u16| d == #[trigger]
                datagram_v4(us, them, 1, m.host.cfg.ttl, id, false, message_v4(0, 0, rest, body))
        }),
{
    lemma_ping_v4_taken(m, now, them, us, ttl, ident, rest, body);
    lemma_echo_prepared(received(m.host), IpAddr::V4(them), IpAddr::V4(us), rest, body);
    let n = received(m.host).echo_queued(IpAddr::V4(them), IpAddr::V4(us), rest, body);
    let e = n.echo->0;
    let y = CoreModel { echo: None, ..n };
    assert(n.drained(now).2 == Some(y.echo_sent(e).1)) by {
        reveal(CoreModel::drained);
    }
    reveal(CoreModel::echo_sent);
    assert(y.echo_sent(e).1 == datagram_v4(
        us,
        them,
        1,
        m.host.cfg.ttl,
        y.ident_drawn().1,
        false,
        message_v4(0, 0, rest, body),
    ));
}

proof fn lemma_ping_v4_taken(
    m: StackModel,
    now: Instant,
    them: [u8; 4],
    us: [u8; 4],
    ttl: u8,
    ident: u16,
    rest: [u8; 4],
    body: Seq<u8>,
)
    requires
        m.host.cfg.owns(IpAddr::V4(us)),
        body.len() <= 1500,
    ensures
        m.datagram_taken(now, ping_v4(them, us, ttl, ident, rest, body)) == m.with_host(
            received(m.host).echo_queued(IpAddr::V4(them), IpAddr::V4(us), rest, body),
        ),
{
    let msg = message_v4(8, 0, rest, body);
    let frame = ping_v4(them, us, ttl, ident, rest, body);
    message_v4_length(8, 0, rest, body);
    v4_round_trip(8, 0, rest, body);
    lemma_datagram_v4_reads(them, us, 1, ttl, ident, false, msg);
    assert(frame[0] == 0x45);
    let x = m.with_host(received(m.host));
    let (src, dst) = (IpAddr::V4(them), IpAddr::V4(us));
    assert(x.ipv4_taken(now, frame) == x.with_host(x.host.delivered(now, src, dst, 1, msg))) by {
        reveal(StackModel::ipv4_taken);
    }
    assert(x.host.delivered(now, src, dst, 1, msg) == x.host.icmp4_delivered(now, src, dst, msg))
        by {
        reveal(CoreModel::delivered);
        reveal(CoreModel::dispatched);
    }
    reveal(CoreModel::icmp4_delivered);
}

/// The reply is prepared from what was asked.
proof fn lemma_echo_prepared(
    x: CoreModel,
    src: IpAddr,
    dst: IpAddr,
    rest: [u8; 4],
    body: Seq<u8>,
)
    requires
        idle(x),
        x.cfg.answer_echo,
        src.unicast_source() && !x.cfg.owns(src),
        body.len() + (if src is V4 {
            28int
        } else {
            48
        }) <= x.cfg.mtu,
        body.len() <= 1500,
        x.echo_buf.len() == 1500,
    ensures
        ({
            let n = x.echo_queued(src, dst, rest, body);
            &&& n == (CoreModel { echo: n.echo, echo_buf: n.echo_buf, ..x })
            &&& n.echo matches Some(e) && {
                &&& e.local == dst && e.remote == src && e.rest == rest
                &&& (CoreModel { echo: None, ..n }).echo_body(e) == body
            }
        }),
{
    reveal(CoreModel::echo_queued);
    let n = x.echo_queued(src, dst, rest, body);
    assert((CoreModel { echo: None, ..n }).echo_body(n.echo->0) =~= body);
}

/// The same with IPv6.
pub proof fn pings_are_answered_v6(
    m: StackModel,
    now: Instant,
    them: [u8; 16],
    us: [u8; 16],
    hop_limit: u8,
    rest: [u8; 4],
    body: Seq<u8>,
)
    requires
        idle(m.host),
        m.host.cfg.answer_echo,
        m.host.cfg.owns(IpAddr::V6(us)),
        IpAddr::V6(them).unicast_source() && !m.host.cfg.owns(IpAddr::V6(them)),
        body.len() + 48 <= m.host.cfg.mtu,
        body.len() <= 1500,
        m.host.echo_buf.len() == 1500,
    ensures
        ({
            let n = m.datagram_taken(now, ping_v6(them, us, hop_limit, rest, body));
            n.host.drained(now).2 == Some(
                datagram_v6(us, them, 58, m.host.cfg.ttl, message_v6(129, 0, rest, body, us, them)),
            )
        }),
{
    lemma_ping_v6_taken(m, now, them, us, hop_limit, rest, body);
    lemma_echo_prepared(received(m.host), IpAddr::V6(them), IpAddr::V6(us), rest, body);
    let n = received(m.host).echo_queued(IpAddr::V6(them), IpAddr::V6(us), rest, body);
    let e = n.echo->0;
    let y = CoreModel { echo: None, ..n };
    assert(n.drained(now).2 == Some(y.echo_sent(e).1)) by {
        reveal(CoreModel::drained);
    }
    reveal(CoreModel::echo_sent);
}

proof fn lemma_ping_v6_taken(
    m: StackModel,
    now: Instant,
    them: [u8; 16],
    us: [u8; 16],
    hop_limit: u8,
    rest: [u8; 4],
    body: Seq<u8>,
)
    requires
        m.host.cfg.owns(IpAddr::V6(us)),
        body.len() <= 1500,
    ensures
        m.datagram_taken(now, ping_v6(them, us, hop_limit, rest, body)) == m.with_host(
            received(m.host).echo_queued(IpAddr::V6(them), IpAddr::V6(us), rest, body),
        ),
{
    let msg = message_v6(128, 0, rest, body, them, us);
    let frame = ping_v6(them, us, hop_limit, rest, body);
    message_v6_length(128, 0, rest, body, them, us);
    v6_round_trip(128, 0, rest, body, them, us);
    lemma_datagram_v6_reads(them, us, 58, hop_limit, msg);
    assert(frame[0] == 0x60);
    let x = m.with_host(received(m.host));
    let (src, dst) = (IpAddr::V6(them), IpAddr::V6(us));
    assert(x.ipv6_taken(now, frame) == x.with_host(x.host.delivered(now, src, dst, 58, msg))) by {
        reveal(StackModel::ipv6_taken);
    }
    ipv6::upper_layer_payload_is_untouched(58, msg);
    assert(x.host.delivered(now, src, dst, 58, msg) == x.host.icmp6_delivered(now, src, dst, msg))
        by {
        reveal(CoreModel::delivered);
        reveal(CoreModel::dispatched);
    }
    reveal(CoreModel::icmp6_delivered);
}

/// A port is listened on from when the application asks for it; other ports are
/// not affected. Asking twice, for port zero, or for more ports than there is
/// room for, fails and changes nothing.
pub proof fn listening_adds_one_port(m: CoreModel, port: u16, other: u16)
    requires
        other != port,
    ensures
        ({
            let (n, r) = m.listening(port);
            &&& r is Ok <==> port != 0 && !m.listeners.contains(port) && m.listeners.len() < 8
            &&& r is Ok ==> n.listeners.contains(port)
            &&& r is Err ==> n == m
            &&& port == 0 ==> r == Err::<(), Error>(Error::Unaddressable)
            &&& port != 0 && m.listeners.contains(port) ==> r == Err::<(), Error>(Error::AddrInUse)
            &&& n.listeners.contains(other) <==> m.listeners.contains(other)
        }),
{
    let n = m.listening(port).0;
    if m.listening(port).1 is Ok {
        assert(n.listeners[n.listeners.len() - 1] == port);
        if m.listeners.contains(other) {
            let i = choose|i: int| 0 <= i < m.listeners.len() && m.listeners[i] == other;
            assert(n.listeners[i] == other);
        }
        if n.listeners.contains(other) {
            let i = choose|i: int| 0 <= i < n.listeners.len() && n.listeners[i] == other;
            assert(m.listeners[i] == other);
        }
    }
}

/// A port is listened on no more once the application asks for that; other ports
/// and the connections are not affected.
pub proof fn unlistening_removes_one_port(m: CoreModel, port: u16, other: u16)
    requires
        other != port,
    ensures
        !m.unlistened(port).listeners.contains(port),
        m.unlistened(port).listeners.contains(other) <==> m.listeners.contains(other),
        m.unlistened(port).conns == m.conns,
{
    broadcast use lemma_filter_keeps_exactly;

    assert(m.unlistened(port).listeners.contains(port) ==> false);
    assert(m.unlistened(port).listeners.contains(other) <==> m.listeners.contains(other));
}

broadcast proof fn lemma_filter_keeps_exactly(s: Seq<u16>, keep: spec_fn(u16) -> bool, x: u16)
    ensures
        #[trigger] s.filter(keep).contains(x) <==> s.contains(x) && keep(x),
{
    if s.contains(x) && keep(x) {
        lemma_kept(s, keep, x);
    }
    if s.filter(keep).contains(x) {
        lemma_filtered(s, keep, x);
    }
}

proof fn lemma_kept(s: Seq<u16>, keep: spec_fn(u16) -> bool, x: u16)
    requires
        s.contains(x),
        keep(x),
    ensures
        s.filter(keep).contains(x),
    decreases s.len(),
{
    reveal(Seq::filter);
    let p = s.drop_last();
    let f = p.filter(keep);
    if s.last() == x {
        assert(s.filter(keep) == f.push(x));
        assert(f.push(x)[f.len() as int] == x);
    } else {
        let i = choose|i: int| 0 <= i < s.len() && s[i] == x;
        assert(p[i] == x);
        lemma_kept(p, keep, x);
        let k = choose|k: int| 0 <= k < f.len() && f[k] == x;
        assert(f.push(s.last())[k] == x);
    }
}

proof fn lemma_filtered(s: Seq<u16>, keep: spec_fn(u16) -> bool, x: u16)
    requires
        s.filter(keep).contains(x),
    ensures
        s.contains(x) && keep(x),
    decreases s.len(),
{
    reveal(Seq::filter);
    if s.len() > 0 {
        let p = s.drop_last();
        if p.filter(keep).contains(x) {
            lemma_filtered(p, keep, x);
            let i = choose|i: int| 0 <= i < p.len() && p[i] == x;
            assert(s[i] == x);
        } else {
            let f = s.filter(keep);
            let i = choose|i: int| 0 <= i < f.len() && f[i] == x;
            if keep(s.last()) {
                assert(f == p.filter(keep).push(s.last()));
                if i < p.filter(keep).len() {
                    assert(p.filter(keep)[i] == x);
                }
            } else {
                assert(f == p.filter(keep));
            }
            assert(s[s.len() - 1] == x);
        }
    }
}

/// Opening a connection: it succeeds exactly if the ends can be connected at all
/// (one family, real ports, a peer that can be one, an address of ours), there
/// is entropy, no connection is between these ends, and a slot is free. Then the
/// first free slot holds a connection that will send its SYN; nothing else
/// changes. Otherwise nothing changes at all.
pub proof fn opening_takes_a_free_slot(
    m: CoreModel,
    now: Instant,
    local: SocketAddr,
    remote: SocketAddr,
    idx: int,
)
    requires
        is_first_free(m, idx),
        m.conns.len() <= 256,
        m.generations.len() == m.conns.len(),
    ensures
        ({
            let (n, r) = m.opened_from(now, local, remote);
            let possible = {
                &&& local.ip is V4 <==> remote.ip is V4
                &&& local.port != 0 && remote.port != 0
                &&& remote.ip.unicast_source() && !m.cfg.owns(remote.ip)
                &&& m.cfg.owns(local.ip)
            };
            &&& !possible ==> r == Err::<SocketId, Error>(Error::Unaddressable) && n == m
            &&& possible && m.key is None ==> r == Err::<SocketId, Error>(Error::NeedEntropy) && n
                == m
            &&& possible && m.key is Some && unconnected(m, local, remote) ==> {
                &&& r matches Ok(sock) && sock.index == idx && sock.generation
                    == m.generations[idx]
                &&& n.conns[idx] matches Some(c) && {
                    &&& c.tcb.local == local && c.tcb.remote == remote
                    &&& c.tcb.state is SynSent && c.tcb.syn_pending && !c.tcb.passive
                    &&& c.tcb.iss == isn_value(m.key->0, now, local, remote)
                    &&& c.snd.len() == 0 && c.rcv.window.len() == m.rcv_cap
                }
                &&& n == m.with_conn(idx, n.conns[idx])
            }
        }),
{
    lemma_free_is_found(m.conns, idx);
    if unconnected(m, local, remote) {
        lemma_none_is_found(m.conns, local, remote);
    }
    reveal(CoreModel::opened_from);
}

/// The segment size that we announce is what the link carries less the headers,
/// unless another one is configured; the one that we start with is what the path
/// carries less the headers.
pub proof fn segment_sizes_follow_the_link(m: CoreModel, now: Instant, ip: IpAddr)
    requires
        m.cfg.mtu >= (if ip is V4 {
            576int
        } else {
            1280
        }),
        path_mtu(m.pmtu, now, m.cfg.mtu, ip) >= (if ip is V4 {
            576int
        } else {
            1280
        }),
    ensures
        ({
            let p = m.params_for(now, ip);
            let head = if ip is V4 {
                40int
            } else {
                60
            };
            &&& m.cfg.mss_override is None ==> p.local_mss == m.cfg.mtu - head
            &&& m.cfg.mss_override matches Some(x) ==> p.local_mss == x
            &&& p.pmtu_mss == path_mtu(m.pmtu, now, m.cfg.mtu, ip) - head
            &&& p.offer_sack == m.cfg.sack
            &&& m.cfg.offer_window_scale && m.cfg.recv_window_scale <= 14 ==> p.offer_wscale
                == Some(m.cfg.recv_window_scale)
            &&& !m.cfg.offer_window_scale ==> p.offer_wscale is None
        }),
{
    reveal(CoreModel::params_for);
}

/// Aborting a connection closes it and queues a reset for its peer, at SND.NXT
/// and acknowledging what arrived, if there is a peer to tell.
pub proof fn aborting_resets_the_peer(m: CoreModel, now: Instant, sock: SocketId)
    requires
        m.live(sock),
        m.ctl.len() < 8,
        ({
            let c = m.conns[sock.index as int]->0;
            !(c.tcb.state is SynSent || c.tcb.state is TimeWait || c.tcb.state is Closed)
        }),
    ensures
        ({
            let c = m.conns[sock.index as int]->0;
            let (n, r) = m.aborted(now, sock);
            &&& r == Ok::<(), Error>(())
            &&& n.conns[sock.index as int] matches Some(d) && d.tcb.state is Closed
            &&& n.ctl == m.ctl.push(
                CtlSegment {
                    local: c.tcb.local,
                    remote: c.tcb.remote,
                    seq: c.tcb.snd_nxt,
                    ack: Some(c.tcb.rcv_nxt),
                },
            )
        }),
{
    let idx = sock.index as int;
    let c = m.conns[idx]->0;
    reveal(CoreModel::aborted);
    reveal(CoreModel::told);
    let (x, fx) = c.closed(CloseReason::Aborted, FxModel::empty());
    assert(fx.events.len() > 0 ==> fx.events.drop_last() =~= Seq::empty());
    reveal_with_fuel(CoreModel::told_all, 2);
}

/// The application hears of each event by the handle of the connection; of an
/// accepted connection it also learns the port that was listened on.
pub proof fn events_name_their_connection(m: CoreModel, idx: int, reason: CloseReason)
    requires
        0 <= idx < m.conns.len() <= 256,
        m.conns[idx] is Some,
    ensures
        ({
            let sock = m.sock_at(idx);
            let c = m.conns[idx]->0;
            &&& sock.index == idx && sock.generation == m.generations[idx]
            &&& m.app_event(idx, ConnEvent::Readable) == AppEvent::Readable { sock }
            &&& m.app_event(idx, ConnEvent::Writable) == AppEvent::Writable { sock }
            &&& m.app_event(idx, ConnEvent::PeerFin) == AppEvent::PeerFinReceived { sock }
            &&& m.app_event(idx, ConnEvent::Closed(reason)) == AppEvent::Closed { sock, reason }
            &&& m.app_event(idx, ConnEvent::Connected) == AppEvent::Connected {
                sock,
                via_listener: if c.tcb.passive {
                    Some(c.tcb.listener_port)
                } else {
                    None
                },
            }
        }),
{
}

/// The slot of a closed connection is free after the next sweep, once the
/// runtime has no timer left for it; before, the runtime is told to cancel them.
pub proof fn closed_connections_leave_their_slot(m: CoreModel, now: Instant, idx: int)
    requires
        0 <= idx < m.conns.len(),
        m.emitted.len() == m.conns.len(),
        m.generations.len() == m.conns.len(),
        m.conns[idx] is Some,
        m.conns[idx]->0.tcb.state is Closed,
        m.conns[idx]->0.tcb.timers == Timers::idle(),
        m.emitted[idx] == Timers::idle(),
    ensures
        m.slot_swept(now, idx).conns[idx] is None,
        m.slot_swept(now, idx).generations[idx] != m.generations[idx],
        m.slot_swept(now, idx).actions == m.actions,
{
    reveal(CoreModel::slot_swept);
    reveal(CoreModel::reaped);
    reveal(CoreModel::timer_reconciled);
}

/// A timer that the runtime reports reaches the connection that it was started
/// for, and no other; it counts as pending no more.
pub proof fn timers_reach_their_connection(
    m: StackModel,
    now: Instant,
    sock: SocketId,
    kind: TimerKind,
)
    requires
        m.host.live(sock),
    ensures
        ({
            let idx = sock.index as int;
            let c = m.host.conns[idx]->0;
            let n = m.timer_fired(now, TimerKey::Conn { sock, kind }).host;
            let (d, fx) = c.fired(now, kind, FxModel::empty());
            fx == FxModel::empty() ==> {
                &&& n.conns == m.host.conns.update(idx, Some(d))
                &&& n.emitted == m.host.emitted.update(idx, m.host.emitted[idx].without(kind))
                &&& n.actions == m.host.actions
            }
        }),
{
    reveal(CoreModel::timer_fired);
    reveal_with_fuel(CoreModel::told_all, 1);
}

/// What the application writes reaches the connection of its handle, and no
/// other.
pub proof fn writes_reach_their_connection(m: CoreModel, sock: SocketId, data: Seq<u8>)
    requires
        m.live(sock),
    ensures
        ({
            let idx = sock.index as int;
            let (n, r) = m.sent(sock, data);
            let (d, k) = m.conns[idx]->0.written(data, m.snd_cap as int);
            r == k && n == m.with_conn(idx, Some(d))
        }),
{
}

/// A fragment counts for the datagram that its addresses, protocol and
/// identification name, at the offset that it says; the one that completes the
/// datagram has its whole payload delivered, as if it had come in one piece.
pub proof fn fragments_count_for_their_datagram(
    m: StackModel,
    now: Instant,
    h: Ipv4Emit,
    part: Seq<u8>,
)
    requires
        h.frag_offset % 8 == 0,
        h.more_frags || h.frag_offset != 0,
        part.len() + 20 <= u16::MAX,
        m.host.cfg.owns(IpAddr::V4(h.dst)),
    ensures
        ({
            let frame = h.header(part.len() as int) + part;
            let key = ReasmKey {
                src: IpAddr::V4(h.src),
                dst: IpAddr::V4(h.dst),
                proto: h.proto,
                ident: h.ident as u32,
            };
            let n = m.datagram_taken(now, frame);
            let (slots, r) = pushed(
                m.slots,
                now,
                m.host.cfg.reassembly_timeout,
                key,
                h.frag_offset as u32,
                h.more_frags,
                part,
            );
            &&& !(r is Complete) ==> n == (StackModel { host: received(m.host), slots, ..m })
            &&& r matches ReasmResult::Complete { slot } ==> {
                let s = slots[slot as int];
                &&& n.host == received(m.host).delivered(
                    now,
                    IpAddr::V4(h.src),
                    IpAddr::V4(h.dst),
                    key.proto,
                    s.buf.take(s.total_len->0 as int),
                )
                &&& n.slots == slots.update(slot as int, s.freed())
            }
        }),
{
    let frame = h.header(part.len() as int) + part;
    ipv4::emit_parse_round_trip(h, part);
    assert(frame[0] == 0x45);
    reveal(StackModel::ipv4_taken);
    reveal(StackModel::fragment_taken);
}

/// A connection that the application opens without choosing our end starts from
/// an address of ours of the peer's family, and from a port of the dynamic range
/// that is not in use.
pub proof fn our_end_is_chosen(m: CoreModel, now: Instant, remote: SocketAddr)
    requires
        m.conns.len() <= 256,
        m.generations.len() == m.conns.len(),
    ensures
        m.opened(now, remote).1 matches Ok(sock) ==> {
            let n = m.opened(now, remote).0;
            n.conns[sock.index as int] matches Some(c) && {
                &&& c.tcb.remote == remote
                &&& c.tcb.local.ip is V4 <==> remote.ip is V4
                &&& m.cfg.owns(c.tcb.local.ip)
                &&& c.tcb.local.port >= 49152
                &&& c.tcb.state is SynSent
                &&& m.conns[sock.index as int] is None
            }
        },
{
    if let Ok(sock) = m.opened(now, remote).1 {
        let x = m.port_chosen(remote).0;
        chosen_ports_are_free(m, remote);
        lemma_free_bounds(x.conns);
        reveal(CoreModel::port_chosen);
        reveal(CoreModel::opened_from);
    }
}

proof fn lemma_free_bounds(conns: Seq<Option<ConnModel>>)
    ensures
        free_index(conns) < conns.len() ==> conns[free_index(conns) as int] is None,
    decreases conns.len(),
{
    if conns.len() > 0 && conns[0] is Some {
        let rest = conns.drop_first();
        lemma_free_bounds(rest);
        if free_index(rest) < rest.len() {
            assert(rest[free_index(rest) as int] == conns[free_index(rest) as int + 1]);
        }
    }
}

/// A reset that waits is sent as one: between its ends, with its numbers, and
/// with an acknowledgment exactly if it has one.
pub proof fn waiting_resets_are_sent(m: CoreModel, now: Instant)
    requires
        !m.entropy_request_pending,
        m.actions.len() == 0,
        m.ctl.len() > 0,
    ensures
        ({
            let c = m.ctl[0];
            let (n, a, d) = m.drained(now);
            &&& n.ctl == m.ctl.drop_first()
            &&& exists|e: EmitModel, ident: u16|
                {
                    &&& d == Some(
                        #[trigger] tcp_datagram(
                            c.local.ip,
                            c.remote.ip,
                            e,
                            Seq::empty(),
                            m.cfg.ttl,
                            ident,
                        ),
                    )
                    &&& e.src_port == c.local.port && e.dst_port == c.remote.port
                    &&& e.seq == c.seq.0
                    &&& c.ack matches Some(k) ==> e.ack == k.0 && e.flags.0 == 0x14
                    &&& c.ack is None ==> e.flags.0 == 0x04
                }
        }),
{
    let c = m.ctl[0];
    let y = CoreModel { ctl: m.ctl.drop_first(), ..m };
    reveal(CoreModel::drained);
    reveal(CoreModel::ctl_sent);
    let e = ctl_segment(c);
    assert(m.drained(now).2 == Some(
        tcp_datagram(
            c.local.ip,
            c.remote.ip,
            e,
            Seq::empty(),
            m.cfg.ttl,
            y.ident_drawn().1,
        ),
    ));
}

/// The `n` bytes from `at` on.
pub open spec fn bytes_at(s: Seq<u8>, at: int, n: int) -> Seq<u8> {
    if n == 0 {
        Seq::empty()
    } else {
        s.subrange(at, at + n)
    }
}

/// A segment that a connection plans is sent as planned: between its ends, with
/// its number, acknowledgment, flags, window and options, and with its bytes of
/// the send buffer.
pub proof fn planned_segments_are_sent(m: CoreModel, now: Instant)
    requires
        !m.entropy_request_pending,
        m.actions.len() == 0,
        m.ctl.len() == 0,
        m.echo is None,
        m.poll_cursor < m.conns.len(),
        m.emitted.len() == m.conns.len(),
        m.conns[m.poll_cursor as int] is Some,
        m.conns[m.poll_cursor as int]->0.next_planned(now).1 is Some,
    ensures
        ({
            let c = m.conns[m.poll_cursor as int]->0;
            let (x, plan) = c.next_planned(now);
            let p = plan->0;
            let text = bytes_at(x.snd, p.payload_off as int, p.payload_len as int);
            exists|e: EmitModel, ident: u16|
                {
                    &&& m.drained(now).2 == Some(
                        #[trigger] tcp_datagram(
                            x.tcb.local.ip,
                            x.tcb.remote.ip,
                            e,
                            text,
                            m.cfg.ttl,
                            ident,
                        ),
                    )
                    &&& e.src_port == x.tcb.local.port && e.dst_port == x.tcb.remote.port
                    &&& e.seq == p.seq.0
                    &&& p.ack matches Some(k) ==> e.ack == k.0 && e.flags.0 == p.flags.0 | 0x10
                    &&& p.ack is None ==> e.flags == p.flags
                    &&& e.window == p.window
                    &&& e.options.sack_blocks == p.sack_blocks
                    &&& p.syn_opts matches Some(o) ==> e.options.mss == Some(o.mss)
                        && e.options.window_scale == o.wscale && e.options.sack_permitted
                        == o.sack_permitted
                    &&& p.syn_opts is None ==> e.options.mss is None && e.options.window_scale
                        is None && !e.options.sack_permitted
                }
        }),
{
    let idx = m.poll_cursor as int;
    let c = m.conns[idx]->0;
    let (x, plan) = c.next_planned(now);
    let p = plan->0;
    let w = m.with_conn(idx, Some(x));
    reveal(CoreModel::drained);
    reveal_with_fuel(CoreModel::conns_polled, 2);
    assert(ring_at(idx, 0, m.conns.len() as int) == idx);
    assert(m.conns_polled(now, 0, m.conns.len()).1 == Some(w.plan_sent(now, idx, p).1));
    reveal(CoreModel::plan_sent);
    let drawn = CoreModel { poll_cursor: idx as nat, ..w }.ident_drawn();
    assert(drawn.0.conns[idx] == Some(x));
    let e = plan_segment(x.tcb, p);
    assert(plan_text(x, p) == bytes_at(x.snd, p.payload_off as int, p.payload_len as int));
    assert(m.drained(now).2 == Some(
        tcp_datagram(
            x.tcb.local.ip,
            x.tcb.remote.ip,
            e,
            bytes_at(x.snd, p.payload_off as int, p.payload_len as int),
            m.cfg.ttl,
            drawn.1,
        ),
    ));
}

} // verus!
