//! What leaves the stack can be read by whoever gets it.
use super::emit::{lemma_cfg_sane, lemma_plan_header, lemma_tcp_datagram_len};
use super::host::{
    lemma_path_ok, lemma_queued_ok, lemma_real_actions, lemma_with_conn_ok, path_ok,
    queueable, real_actions,
};
use super::laws::{
    lemma_datagram_v4_reads, lemma_datagram_v6_reads, sent_segments_parse_back_v4,
    sent_segments_parse_back_v6,
};
use super::model::{counted, CoreModel, CtlSegment, EchoReply};
use super::polling::{ctl_segment, lemma_slot_swept_ok, plan_segment, plan_text, tcp_datagram};
use super::StackModel;
use crate::config::{Config, ECHO_BUF_SIZE};
use crate::tcp::conn::identity::{plans_keep_path, plans_keep_text};
use crate::tcp::conn::output::{plan_fits, plans_keep_invariant, PlanModel};
use crate::time::Instant;
use crate::types::{Action, IpAddr, TimerKey};
use crate::util::ring_at;
use crate::wire::icmp::{message_v4, message_v6, pseudo_v6};
use crate::wire::tcp::EmitModel;
use crate::wire::{be16, icmp, ipv4, ipv6, proto, tcp};
use vstd::prelude::*;

verus! {

/// The payload of an IPv4 datagram of ours: a TCP segment or an echo reply
/// that parses, its checksum among the rest.
pub open spec fn upper_reads_v4(src: [u8; 4], dst: [u8; 4], protocol: u8, body: Seq<u8>) -> bool {
    ||| protocol == proto::TCP && tcp::parsed(body, IpAddr::V4(src), IpAddr::V4(dst)) is Ok
    ||| protocol == proto::ICMP && icmp::parsed(body, body) is Ok && icmp::parsed(body, body)->Ok_0.0.kind
        == icmp::v4::ECHO_REPLY
}

/// The payload of an IPv6 datagram of ours: a TCP segment or an echo reply
/// that parses, its checksum among the rest.
pub open spec fn upper_reads_v6(src: [u8; 16], dst: [u8; 16], protocol: u8, body: Seq<u8>) -> bool {
    let covered = pseudo_v6(src, dst, body.len()) + body;
    ||| protocol == proto::TCP && tcp::parsed(body, IpAddr::V6(src), IpAddr::V6(dst)) is Ok
    ||| protocol == proto::ICMPV6 && icmp::parsed(body, covered) is Ok && icmp::parsed(
        body,
        covered,
    )->Ok_0.0.kind == icmp::v6::ECHO_REPLY
}

/// A whole IPv4 datagram from one of our addresses that can be read, and that
/// is exactly as long as its header says.
pub open spec fn reads_v4(cfg: Config, d: Seq<u8>) -> bool {
    ipv4::parsed(d) matches Ok((h, body)) && {
        &&& cfg.owns(IpAddr::V4(h.src))
        &&& !h.more_frags && h.frag_offset == 0
        &&& h.total_len == d.len()
        &&& h.header_len + body.len() == d.len()
        &&& upper_reads_v4(h.src, h.dst, h.proto, body)
    }
}

/// A whole IPv6 datagram from one of our addresses that can be read, and that
/// is exactly as long as its header says.
pub open spec fn reads_v6(cfg: Config, d: Seq<u8>) -> bool {
    ipv6::parsed(d) matches Ok((h, body)) && {
        &&& cfg.owns(IpAddr::V6(h.src))
        &&& h.frag is None
        &&& ipv6::HEADER_LEN + be16(d, 4) == d.len()
        &&& ipv6::HEADER_LEN + body.len() == d.len()
        &&& upper_reads_v6(h.src, h.dst, h.proto, body)
    }
}

/// A whole datagram from one of our addresses that can be read.
#[verifier::opaque]
pub open spec fn reads_well(cfg: Config, d: Seq<u8>) -> bool {
    reads_v4(cfg, d) || reads_v6(cfg, d)
}

/// A datagram that leaves is sound: it can be read, fits the link, and is
/// counted once.
pub open spec fn sent_well(a: CoreModel, b: CoreModel, d: Seq<u8>) -> bool {
    &&& reads_well(a.cfg, d)
    &&& d.len() <= a.cfg.mtu
    &&& b.stats.tx_datagrams == counted(a.stats.tx_datagrams)
}

proof fn lemma_segment_reads(
    cfg: Config,
    src: IpAddr,
    dst: IpAddr,
    e: EmitModel,
    payload: Seq<u8>,
    ttl: u8,
    ident: u16,
)
    requires
        cfg.owns(src),
        src is V4 <==> dst is V4,
        e.header_len() <= tcp::MAX_HEADER_LEN,
        e.options.sack_blocks.len() <= 4,
        e.options.window_scale matches Some(s) ==> s <= 14,
        e.flags.0 < 64,
        20 + e.header_len() + payload.len() <= u16::MAX,
    ensures
        reads_well(cfg, tcp_datagram(src, dst, e, payload, ttl, ident)),
{
    reveal(reads_well);
    match (src, dst) {
        (IpAddr::V4(s), IpAddr::V4(d)) => {
            sent_segments_parse_back_v4(s, d, e, payload, ttl, ident);
        },
        (IpAddr::V6(s), IpAddr::V6(d)) => {
            sent_segments_parse_back_v6(s, d, e, payload, ttl, ident);
        },
        _ => {},
    }
}

proof fn lemma_ctl_reads(m: CoreModel, c: CtlSegment)
    requires
        m.cfg.owns(c.local.ip),
        c.local.ip is V4 <==> c.remote.ip is V4,
        m.cfg.mtu >= 576,
    ensures
        sent_well(m, m.ctl_sent(c).0, m.ctl_sent(c).1),
{
    lemma_tcp_datagram_len(
        c.local.ip,
        c.remote.ip,
        ctl_segment(c),
        Seq::empty(),
        m.cfg.ttl,
        m.ident_drawn().1,
    );
    reveal(CoreModel::ctl_sent);
    lemma_segment_reads(
        m.cfg,
        c.local.ip,
        c.remote.ip,
        ctl_segment(c),
        Seq::empty(),
        m.cfg.ttl,
        m.ident_drawn().1,
    );
}

proof fn lemma_echo_reads(m: CoreModel, e: EchoReply)
    requires
        m.cfg.owns(e.local),
        e.local is V4 <==> e.remote is V4,
        e.len <= m.echo_buf.len(),
        e.len + 48 <= u16::MAX,
        e.len + (if e.local is V4 {
            28int
        } else {
            48
        }) <= m.cfg.mtu,
    ensures
        sent_well(m, m.echo_sent(e).0, m.echo_sent(e).1),
{
    reveal(reads_well);
    reveal(CoreModel::echo_sent);
    let body = m.echo_body(e);
    match (e.local, e.remote) {
        (IpAddr::V4(l), IpAddr::V4(r)) => {
            let msg = message_v4(icmp::v4::ECHO_REPLY, 0, e.rest, body);
            icmp::message_v4_length(icmp::v4::ECHO_REPLY, 0, e.rest, body);
            icmp::v4_round_trip(icmp::v4::ECHO_REPLY, 0, e.rest, body);
            lemma_datagram_v4_reads(
                l,
                r,
                proto::ICMP,
                m.cfg.ttl,
                m.ident_drawn().1,
                false,
                msg,
            );
        },
        (IpAddr::V6(l), IpAddr::V6(r)) => {
            let msg = message_v6(icmp::v6::ECHO_REPLY, 0, e.rest, body, l, r);
            icmp::message_v6_length(icmp::v6::ECHO_REPLY, 0, e.rest, body, l, r);
            icmp::v6_round_trip(icmp::v6::ECHO_REPLY, 0, e.rest, body, l, r);
            lemma_datagram_v6_reads(l, r, proto::ICMPV6, m.cfg.ttl, msg);
        },
        _ => {},
    }
}

proof fn lemma_reconciled_count(m: CoreModel, now: Instant, idx: int)
    ensures
        m.reconciled(now, idx).stats.tx_datagrams == m.stats.tx_datagrams,
{
    reveal(CoreModel::timer_reconciled);
}

proof fn lemma_plan_reads(m: CoreModel, now: Instant, idx: int, p: PlanModel)
    requires
        m.cfg.sane(),
        0 <= idx < m.conns.len(),
        m.conns[idx] is Some,
        path_ok(m.cfg, m.conns[idx]->0.tcb),
        plan_fits(m.conns[idx]->0, p),
    ensures
        sent_well(m, m.plan_sent(now, idx, p).0, m.plan_sent(now, idx, p).1),
{
    reveal(CoreModel::plan_sent);
    let c = m.conns[idx]->0;
    let drawn = CoreModel { poll_cursor: idx as nat, ..m }.ident_drawn();
    lemma_reconciled_count(drawn.0.tx_counted(), now, idx);
    lemma_tcp_datagram_len(
        c.tcb.local.ip,
        c.tcb.remote.ip,
        plan_segment(c.tcb, p),
        plan_text(c, p),
        m.cfg.ttl,
        drawn.1,
    );
    lemma_plan_header(m.cfg, c, p);
    let e = plan_segment(c.tcb, p);
    let f = p.flags.0;
    assert(f < 16 ==> (f | 0x10u8) < 64) by (bit_vector);
    lemma_segment_reads(
        m.cfg,
        c.tcb.local.ip,
        c.tcb.remote.ip,
        e,
        plan_text(c, p),
        m.cfg.ttl,
        drawn.1,
    );
}

proof fn lemma_conns_polled_read(m: CoreModel, now: Instant, i: nat, n: nat)
    requires
        m.ok(),
        m.conns_in_order(),
        m.poll_cursor < m.conns.len() == n,
    ensures
        ({
            let (r, sent) = m.conns_polled(now, i, n);
            match sent {
                Some(d) => sent_well(m, r, d),
                None => r.ok(),
            }
        }),
    decreases n - i,
{
    if i < n {
        let idx = ring_at(m.poll_cursor as int, i as int, n as int);
        match m.conns[idx] {
            None => {
                lemma_conns_polled_read(m, now, i + 1, n);
            },
            Some(c) => {
                let (after, plan) = c.next_planned(now);
                let x = m.with_conn(idx, Some(after));
                lemma_path_ok(m, idx);
                plans_keep_invariant(c, now);
                plans_keep_path(c, now);
                plans_keep_text(c, now);
                lemma_with_conn_ok(m, idx, Some(after));
                match plan {
                    None => {
                        assert forall|j: int| 0 <= j < x.conns.len() implies ((
                        #[trigger] x.conns[j]) matches Some(c) ==> c.inv()) by {
                            if j != idx {
                                assert(x.conns[j] == m.conns[j]);
                            }
                        }
                        lemma_conns_polled_read(x, now, i + 1, n);
                    },
                    Some(p) => {
                        assert(m.cfg.sane()) by {
                            reveal(CoreModel::ok);
                        }
                        lemma_plan_reads(x, now, idx, p);
                    },
                }
            },
        }
    }
}

proof fn lemma_drained_reads(m: CoreModel, now: Instant)
    requires
        m.ok(),
        m.conns_in_order(),
    ensures
        ({
            let (r, a, sent) = m.drained(now);
            &&& match sent {
                Some(d) => a == Some(Action::Transmit { len: d.len() as usize }) && sent_well(
                    m,
                    r,
                    d,
                ),
                None => a matches Some(x) ==> queueable(x),
            }
            &&& a is None ==> r.ok()
        }),
{
    reveal(CoreModel::drained);
    lemma_cfg_sane(m);
    assert(real_actions(m.actions)) by {
        reveal(CoreModel::ok);
    }
    lemma_real_actions(m.actions, Action::RequestEntropy);
    assert(m.cfg.sane() && m.poll_cursor < m.conns.len()) by {
        reveal(CoreModel::ok);
    }
    if m.entropy_request_pending || m.actions.len() > 0 {
    } else if m.ctl.len() > 0 {
        assert(m.ctls_ok()) by {
            reveal(CoreModel::ok);
        }
        lemma_ctl_reads(CoreModel { ctl: m.ctl.drop_first(), ..m }, m.ctl[0]);
    } else if m.echo is Some {
        assert(m.echo_ok() && m.echo_buf.len() == ECHO_BUF_SIZE) by {
            reveal(CoreModel::ok);
        }
        lemma_echo_reads(CoreModel { echo: None, ..m }, m.echo->0);
    } else {
        lemma_conns_polled_read(m, now, 0, m.conns.len());
    }
}

proof fn lemma_swept_ok(m: CoreModel, now: Instant, n: nat)
    requires
        m.ok(),
        n <= m.conns.len(),
    ensures
        m.swept(now, n).ok(),
        m.swept(now, n).conns.len() == m.conns.len(),
    decreases n,
{
    if n > 0 {
        lemma_swept_ok(m, now, (n - 1) as nat);
        lemma_slot_swept_ok(m.swept(now, (n - 1) as nat), now, n - 1);
    }
}

proof fn lemma_slot_reconciled_ok(m: StackModel, now: Instant, slot: int)
    requires
        m.host.ok(),
    ensures
        m.slot_reconciled(now, slot).host.ok(),
{
    reveal(StackModel::predecessor_cancelled);
    reveal(StackModel::slot_timer_reconciled);
    if let Some((g, t)) = m.emitted_reasm[slot] {
        let key = TimerKey::Reasm { slot: slot as u8, generation: g };
        lemma_queued_ok(m.host, Action::CancelTimer { key });
    }
    let x = m.predecessor_cancelled(slot).0;
    let key = TimerKey::Reasm { slot: slot as u8, generation: x.slots[slot].generation };
    lemma_queued_ok(x.host, Action::CancelTimer { key });
    if let Some(d) = x.slot_deadline(slot) {
        lemma_queued_ok(x.host, Action::StartTimer { key, after: d - now });
    }
}

proof fn lemma_slots_reconciled_ok(m: StackModel, now: Instant, n: nat)
    requires
        m.host.ok(),
    ensures
        m.slots_reconciled(now, n).host.ok(),
    decreases n,
{
    if n > 0 {
        lemma_slots_reconciled_ok(m, now, (n - 1) as nat);
        lemma_slot_reconciled_ok(m.slots_reconciled(now, (n - 1) as nat), now, n - 1);
    }
}

/// A poll asks for a transmission exactly if there is a datagram to transmit,
/// and gives its length. Whatever is transmitted can be read: a whole datagram,
/// no larger than the link takes, from one of the stack's own addresses, which
/// parses as IPv4 or IPv6, is exactly as long as its header says, and carries a
/// TCP segment or an echo reply that parses in turn. Parsing checks every
/// checksum on the way. Each transmission is counted once.
pub proof fn transmitted_datagrams_read_well(m: StackModel, now: Instant)
    requires
        m.host.ok(),
        m.host.conns_in_order(),
    ensures
        ({
            let (n, a, sent) = m.polled(now);
            &&& match sent {
                Some(d) => a == Some(Action::Transmit { len: d.len() as usize }) && sent_well(
                    m.host,
                    n.host,
                    d,
                ),
                None => a matches Some(x) ==> queueable(x),
            }
        }),
{
    lemma_drained_reads(m.host, now);
    let (r, a, sent) = m.host.drained(now);
    if a is None {
        let x = m.with_host(r);
        lemma_swept_ok(x.host, now, x.host.conns.len());
        let y = x.with_host(x.host.swept(now, x.host.conns.len()));
        lemma_slots_reconciled_ok(y, now, y.slots.len());
        let z = x.swept(now).host;
        assert(real_actions(z.actions)) by {
            reveal(CoreModel::ok);
        }
        lemma_real_actions(z.actions, Action::RequestEntropy);
    }
}

} // verus!
