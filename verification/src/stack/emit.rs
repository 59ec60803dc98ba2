//! Serialization of what the stack sends.
use super::host::{ctl_ok, lemma_ok_frame, lemma_path_ok, lemma_reconciled_ok, path_ok, StackCore};
use super::model::{overhead, CoreModel, CtlSegment, EchoReply, StackStats};
use super::polling::{
    ctl_segment, datagram_v4, datagram_v6, plan_segment, plan_text, tcp_datagram,
};
use crate::config::ECHO_BUF_SIZE;
use crate::tcp::conn::output::{plan_fits, PlanModel, SegmentPlan};
use crate::tcp::conn::{ConnModel, Connection};
use crate::time::Instant;
use crate::types::IpAddr;
use crate::wire::icmp::{message_v4, message_v6};
use crate::wire::ipv4::Ipv4Emit;
use crate::wire::tcp::{
    segment_length, EmitModel, TcpEmit, TcpFlags, TcpOptionsEmit, MAX_HEADER_LEN,
};
use crate::wire::{icmp, ipv4, ipv6, proto, splice};
use vstd::prelude::*;

verus! {

/// A body written behind room for a header, and then the header, make the
/// datagram.
proof fn lemma_datagram(start: Seq<u8>, at: int, body: Seq<u8>, header: Seq<u8>)
    requires
        0 <= at,
        header.len() == at,
        at + body.len() <= start.len(),
    ensures
        splice(start.take(at) + splice(start.skip(at), 0, body), 0, header) == splice(
            start,
            0,
            header + body,
        ),
{
    assert(splice(start.take(at) + splice(start.skip(at), 0, body), 0, header) =~= splice(
        start,
        0,
        header + body,
    ));
}

/// Serialize an IPv4 TCP segment. DF is set: TCP segments double as the
/// path-MTU-discovery probes (RFC 1191 section 3).
fn emit_tcp_v4(
    src: &IpAddr,
    dst: &IpAddr,
    s: [u8; 4],
    d: [u8; 4],
    emit: &TcpEmit,
    payload: (&[u8], &[u8]),
    ttl: u8,
    ident: u16,
    tx: &mut [u8],
) -> (r: usize)
    requires
        *src == IpAddr::V4(s),
        *dst == IpAddr::V4(d),
        emit.options.sack_blocks.wf(),
        emit@.header_len() <= MAX_HEADER_LEN,
        20 + emit@.header_len() + payload.0@.len() + payload.1@.len() <= old(tx)@.len(),
        20 + emit@.header_len() + payload.0@.len() + payload.1@.len() <= u16::MAX,
    ensures
        ({
            let g = tcp_datagram(*src, *dst, emit@, payload.0@ + payload.1@, ttl, ident);
            &&& r == g.len()
            &&& r <= old(tx)@.len()
            &&& final(tx)@ == splice(old(tx)@, 0, g)
        }),
{
    let ghost start = tx@;
    let ghost seg = emit@.segment(*src, *dst, payload.0@ + payload.1@);
    let (head, body) = tx.split_at_mut(ipv4::HEADER_LEN);
    let len: usize = emit.emit(src, dst, payload, body);
    proof {
        segment_length(emit@, *src, *dst, payload.0@ + payload.1@);
    }
    let e = Ipv4Emit::datagram(s, d, proto::TCP, ttl, ident, true);
    e.emit(len, tx);
    proof {
        reveal(tcp_datagram);
        lemma_datagram(start, 20, seg, e.header(len as int));
    }
    ipv4::HEADER_LEN + len
}

/// Serialize an IPv6 TCP segment.
fn emit_tcp_v6(
    src: &IpAddr,
    dst: &IpAddr,
    s: &[u8; 16],
    d: &[u8; 16],
    emit: &TcpEmit,
    payload: (&[u8], &[u8]),
    ttl: u8,
    ident: u16,
    tx: &mut [u8],
) -> (r: usize)
    requires
        *src == IpAddr::V6(*s),
        *dst == IpAddr::V6(*d),
        emit.options.sack_blocks.wf(),
        emit@.header_len() <= MAX_HEADER_LEN,
        40 + emit@.header_len() + payload.0@.len() + payload.1@.len() <= old(tx)@.len(),
        40 + emit@.header_len() + payload.0@.len() + payload.1@.len() <= u16::MAX,
    ensures
        ({
            let g = tcp_datagram(*src, *dst, emit@, payload.0@ + payload.1@, ttl, ident);
            &&& r == g.len()
            &&& r <= old(tx)@.len()
            &&& final(tx)@ == splice(old(tx)@, 0, g)
        }),
{
    let ghost start = tx@;
    let ghost seg = emit@.segment(*src, *dst, payload.0@ + payload.1@);
    let (head, body) = tx.split_at_mut(ipv6::HEADER_LEN);
    let len: usize = emit.emit(src, dst, payload, body);
    proof {
        segment_length(emit@, *src, *dst, payload.0@ + payload.1@);
    }
    ipv6::emit(s, d, proto::TCP, ttl, len, tx);
    proof {
        reveal(tcp_datagram);
        lemma_datagram(start, 40, seg, ipv6::header(*s, *d, proto::TCP, ttl, len as int));
    }
    ipv6::HEADER_LEN + len
}

/// Serialize a TCP segment inside an IPv4/IPv6 datagram.
pub fn emit_tcp_ip(
    src: &IpAddr,
    dst: &IpAddr,
    emit: &TcpEmit,
    payload: (&[u8], &[u8]),
    ttl: u8,
    ident: u16,
    tx: &mut [u8],
) -> (r: usize)
    requires
        src is V4 <==> dst is V4,
        emit.options.sack_blocks.wf(),
        emit@.header_len() <= MAX_HEADER_LEN,
        overhead(*dst) - 20 + emit@.header_len() + payload.0@.len() + payload.1@.len() <= old(
            tx,
        )@.len(),
        overhead(*dst) - 20 + emit@.header_len() + payload.0@.len() + payload.1@.len() <= u16::MAX,
    ensures
        ({
            let g = tcp_datagram(*src, *dst, emit@, payload.0@ + payload.1@, ttl, ident);
            &&& r == g.len()
            &&& r <= old(tx)@.len()
            &&& final(tx)@ == splice(old(tx)@, 0, g)
        }),
{
    match (src, dst) {
        (IpAddr::V4(s), IpAddr::V4(d)) => {
            emit_tcp_v4(src, dst, *s, *d, emit, payload, ttl, ident, tx)
        },
        (IpAddr::V6(s), IpAddr::V6(d)) => {
            emit_tcp_v6(src, dst, s, d, emit, payload, ttl, ident, tx)
        },
        _ => 0,
    }
}

/// The options and flags of a plan never exceed the largest header, and with
/// its text it fits the link.
pub(crate) proof fn lemma_plan_header(cfg: crate::config::Config, c: ConnModel, p: PlanModel)
    requires
        cfg.sane(),
        path_ok(cfg, c.tcb),
        plan_fits(c, p),
    ensures
        plan_segment(c.tcb, p).header_len() <= MAX_HEADER_LEN,
        overhead(c.tcb.remote.ip) - 20 + plan_segment(c.tcb, p).header_len() + p.payload_len
            <= cfg.mtu,
{
    if c.tcb.remote.ip is V6 {
        let a = cfg.local_addrs@;
        let k = choose|k: int| 0 <= k < a.len() && a[k] == c.tcb.local.ip;
        assert(a[k] is V6);
    }
}

/// The segment of a plan.
fn segment_of(local_port: u16, remote_port: u16, plan: &SegmentPlan) -> (r: TcpEmit)
    requires
        plan.sack_blocks.wf(),
    ensures
        r.options.sack_blocks.wf(),
        forall|t: crate::tcp::conn::Tcb|
            t.local.port == local_port && t.remote.port == remote_port ==> r@ == #[trigger] plan_segment(
                t,
                plan@,
            ),
{
    let flags = match plan.ack {
        Some(_) => plan.flags.union(TcpFlags(TcpFlags::ACK)),
        None => plan.flags,
    };
    let (mss, window_scale, sack_permitted): (Option<u16>, Option<u8>, bool) = match plan.syn_opts {
        Some(o) => (Some(o.mss), o.wscale, o.sack_permitted),
        None => (None, None, false),
    };
    TcpEmit {
        src_port: local_port,
        dst_port: remote_port,
        seq: plan.seq.0,
        ack: match plan.ack {
            Some(a) => a.0,
            None => 0,
        },
        flags,
        window: plan.window,
        options: TcpOptionsEmit {
            mss,
            window_scale,
            sack_permitted,
            sack_blocks: plan.sack_blocks,
        },
    }
}

/// Serialize a planned segment of a connection.
fn emit_segment<const SND: usize, const RCV: usize>(
    cfg: &crate::config::Config,
    conn: &Connection<SND, RCV>,
    plan: &SegmentPlan,
    ident: u16,
    tx: &mut [u8],
) -> (r: usize)
    requires
        cfg.sane(),
        conn.wf(),
        path_ok(*cfg, conn@.tcb),
        plan.sack_blocks.wf(),
        plan_fits(conn@, plan@),
        old(tx)@.len() >= cfg.mtu,
    ensures
        ({
            let g = tcp_datagram(
                conn@.tcb.local.ip,
                conn@.tcb.remote.ip,
                plan_segment(conn@.tcb, plan@),
                plan_text(conn@, plan@),
                cfg.ttl,
                ident,
            );
            &&& r == g.len()
            &&& r <= cfg.mtu
            &&& final(tx)@ == splice(old(tx)@, 0, g)
        }),
{
    proof {
        lemma_plan_header(*cfg, conn@, plan@);
        conn.send_buf.lemma_len_bounded();
    }
    let local = conn.local();
    let remote = conn.remote();
    let emit = segment_of(local.port, remote.port, plan);
    let (off, len): (usize, usize) = if plan.payload_len == 0 {
        (0, 0)
    } else {
        (plan.payload_off as usize, plan.payload_len as usize)
    };
    let payload = conn.send_buf.read(off, len);
    assert(payload.0@ + payload.1@ =~= plan_text(conn@, plan@));
    let n: usize = emit_tcp_ip(&local.ip, &remote.ip, &emit, payload, cfg.ttl, ident, tx);
    proof {
        lemma_tcp_datagram_len(
            local.ip,
            remote.ip,
            emit@,
            plan_text(conn@, plan@),
            cfg.ttl,
            ident,
        );
    }
    n
}

/// How long a datagram with a TCP segment is.
pub(crate) proof fn lemma_tcp_datagram_len(
    src: IpAddr,
    dst: IpAddr,
    e: EmitModel,
    payload: Seq<u8>,
    ttl: u8,
    ident: u16,
)
    requires
        src is V4 <==> dst is V4,
    ensures
        tcp_datagram(src, dst, e, payload, ttl, ident).len() == overhead(dst) - 20
            + e.header_len() + payload.len(),
{
    reveal(tcp_datagram);
    segment_length(e, src, dst, payload);
}

impl<const CONNS: usize, const SND: usize, const RCV: usize> StackCore<CONNS, SND, RCV> {
    fn count_tx(&mut self)
        requires
            old(self).parts_wf(),
        ensures
            final(self)@ == old(self)@.tx_counted(),
            final(self).parts_wf(),
    {
        self.stats = StackStats {
            tx_datagrams: self.stats.tx_datagrams.saturating_add(1),
            ..self.stats
        };
    }

    /// Serialize a planned segment of the connection in slot `idx`, which
    /// keeps the turn.
    pub fn emit_plan(&mut self, now: Instant, idx: usize, plan: &SegmentPlan, tx: &mut [u8]) -> (r:
        usize)
        requires
            old(self).wf(),
            idx < CONNS,
            old(self)@.conns[idx as int] is Some,
            plan.sack_blocks.wf(),
            plan_fits(old(self)@.conns[idx as int]->0, plan@),
            old(tx)@.len() >= old(self)@.cfg.mtu,
        ensures
            ({
                let (m, g) = old(self)@.plan_sent(now, idx as int, plan@);
                &&& final(self)@ == m
                &&& r == g.len()
                &&& r <= old(self)@.cfg.mtu
                &&& final(tx)@ == splice(old(tx)@, 0, g)
            }),
            final(self).wf(),
    {
        proof {
            reveal(CoreModel::plan_sent);
            lemma_path_ok(self@, idx as int);
            lemma_cfg_sane(self@);
        }
        self.poll_cursor = idx;
        let ident: u16 = self.next_ident();
        let n: usize = match self.conns.get(idx) {
            Some(conn) => emit_segment(&self.cfg, conn, plan, ident, tx),
            None => 0,
        };
        self.count_tx();
        proof {
            lemma_cursor_ok(old(self)@, self@);
            lemma_reconciled_ok(self@, now, idx as int);
        }
        self.reconcile_conn_timers(now, idx);
        n
    }

    /// Serialize a reset.
    pub fn emit_ctl(&mut self, c: &CtlSegment, tx: &mut [u8]) -> (r: usize)
        requires
            old(self).wf(),
            ctl_ok(old(self)@.cfg, *c),
            old(tx)@.len() >= old(self)@.cfg.mtu,
        ensures
            ({
                let (m, g) = old(self)@.ctl_sent(*c);
                &&& final(self)@ == m
                &&& r == g.len()
                &&& r <= old(self)@.cfg.mtu
                &&& final(tx)@ == splice(old(tx)@, 0, g)
            }),
            final(self).wf(),
    {
        proof {
            reveal(CoreModel::ctl_sent);
            lemma_cfg_sane(self@);
        }
        let emit = reset_segment(c);
        let ident: u16 = self.next_ident();
        let none: &[u8] = &[];
        assert(none@ + none@ =~= Seq::<u8>::empty());
        let n: usize = emit_tcp_ip(
            &c.local.ip,
            &c.remote.ip,
            &emit,
            (none, none),
            self.cfg.ttl,
            ident,
            tx,
        );
        self.count_tx();
        proof {
            lemma_tcp_datagram_len(
                c.local.ip,
                c.remote.ip,
                emit@,
                Seq::empty(),
                self.cfg.ttl,
                ident,
            );
            lemma_ok_frame(old(self)@, self@);
        }
        n
    }
}

/// The segment that a reset is.
fn reset_segment(c: &CtlSegment) -> (r: TcpEmit)
    ensures
        r.options.sack_blocks.wf(),
        r@ == ctl_segment(*c),
{
    proof {
        assert(0x04u8 | 0x10u8 == 0x14u8) by (bit_vector);
    }
    let (ack, flags): (u32, u8) = match c.ack {
        Some(a) => (a.0, TcpFlags::RST | TcpFlags::ACK),
        None => (0, TcpFlags::RST),
    };
    TcpEmit {
        src_port: c.local.port,
        dst_port: c.remote.port,
        seq: c.seq.0,
        ack,
        flags: TcpFlags(flags),
        window: 0,
        options: TcpOptionsEmit::default(),
    }
}

/// What the invariant says of the configuration.
pub proof fn lemma_cfg_sane(m: CoreModel)
    requires
        m.ok(),
    ensures
        m.cfg.sane(),
        m.cfg.mtu >= 576,
{
    reveal(CoreModel::ok);
}

/// A move of the cursor to another slot keeps the invariant.
proof fn lemma_cursor_ok(a: CoreModel, b: CoreModel)
    requires
        a.ok(),
        b == (CoreModel {
            poll_cursor: b.poll_cursor,
            ip_ident: b.ip_ident,
            stats: b.stats,
            ..a
        }),
        b.poll_cursor < a.conns.len(),
    ensures
        b.ok(),
{
    reveal(CoreModel::ok);
}

/// Put an IPv4 header in front of a body that was written behind room for it.
fn head_v4(
    e: &Ipv4Emit,
    len: usize,
    tx: &mut [u8],
    start: Ghost<Seq<u8>>,
    body: Ghost<Seq<u8>>,
) -> (r: usize)
    requires
        e.frag_offset == 0,
        len == body@.len(),
        20 + body@.len() <= start@.len(),
        20 + body@.len() <= u16::MAX,
        old(tx)@ == start@.take(20) + splice(start@.skip(20), 0, body@),
    ensures
        r == 20 + body@.len(),
        r == (e.header(body@.len() as int) + body@).len(),
        final(tx)@ == splice(start@, 0, e.header(body@.len() as int) + body@),
{
    e.emit(len, tx);
    proof {
        lemma_datagram(start@, 20, body@, e.header(len as int));
    }
    ipv4::HEADER_LEN + len
}

/// Put an IPv6 header in front of a body that was written behind room for it.
fn head_v6(
    src: &[u8; 16],
    dst: &[u8; 16],
    next: u8,
    ttl: u8,
    len: usize,
    tx: &mut [u8],
    start: Ghost<Seq<u8>>,
    body: Ghost<Seq<u8>>,
) -> (r: usize)
    requires
        len == body@.len(),
        40 + body@.len() <= start@.len(),
        40 + body@.len() <= u16::MAX,
        old(tx)@ == start@.take(40) + splice(start@.skip(40), 0, body@),
    ensures
        r == 40 + body@.len(),
        r == datagram_v6(*src, *dst, next, ttl, body@).len(),
        final(tx)@ == splice(start@, 0, datagram_v6(*src, *dst, next, ttl, body@)),
{
    ipv6::emit(src, dst, next, ttl, len, tx);
    proof {
        lemma_datagram(start@, 40, body@, ipv6::header(*src, *dst, next, ttl, len as int));
    }
    ipv6::HEADER_LEN + len
}

/// Serialize an IPv4 echo reply.
fn emit_echo_v4(
    local: [u8; 4],
    remote: [u8; 4],
    rest: [u8; 4],
    body: &[u8],
    ttl: u8,
    ident: u16,
    tx: &mut [u8],
) -> (r: usize)
    requires
        28 + body@.len() <= old(tx)@.len(),
        28 + body@.len() <= u16::MAX,
    ensures
        ({
            let g = datagram_v4(
                local,
                remote,
                proto::ICMP,
                ttl,
                ident,
                false,
                message_v4(icmp::v4::ECHO_REPLY, 0, rest, body@),
            );
            &&& r == g.len()
            &&& r == 28 + body@.len()
            &&& final(tx)@ == splice(old(tx)@, 0, g)
        }),
{
    let ghost start = tx@;
    let ghost message = message_v4(icmp::v4::ECHO_REPLY, 0, rest, body@);
    proof {
        icmp::message_v4_length(icmp::v4::ECHO_REPLY, 0, rest, body@);
    }
    let (head, room) = tx.split_at_mut(ipv4::HEADER_LEN);
    let len: usize = icmp::emit_v4(icmp::v4::ECHO_REPLY, 0, rest, body, room);
    let e = Ipv4Emit::datagram(local, remote, proto::ICMP, ttl, ident, false);
    head_v4(&e, len, tx, Ghost(start), Ghost(message))
}

/// Serialize an IPv6 echo reply.
fn emit_echo_v6(
    local: &[u8; 16],
    remote: &[u8; 16],
    rest: [u8; 4],
    body: &[u8],
    ttl: u8,
    tx: &mut [u8],
) -> (r: usize)
    requires
        48 + body@.len() <= old(tx)@.len(),
        48 + body@.len() <= u16::MAX,
    ensures
        ({
            let g = datagram_v6(
                *local,
                *remote,
                proto::ICMPV6,
                ttl,
                message_v6(icmp::v6::ECHO_REPLY, 0, rest, body@, *local, *remote),
            );
            &&& r == g.len()
            &&& r == 48 + body@.len()
            &&& final(tx)@ == splice(old(tx)@, 0, g)
        }),
{
    let ghost start = tx@;
    let ghost message = message_v6(icmp::v6::ECHO_REPLY, 0, rest, body@, *local, *remote);
    proof {
        icmp::message_v6_length(icmp::v6::ECHO_REPLY, 0, rest, body@, *local, *remote);
    }
    let (head, room) = tx.split_at_mut(ipv6::HEADER_LEN);
    let len: usize = icmp::emit_v6(icmp::v6::ECHO_REPLY, 0, rest, body, local, remote, room);
    head_v6(local, remote, proto::ICMPV6, ttl, len, tx, Ghost(start), Ghost(message))
}

/// What the invariant says of a waiting echo reply.
proof fn lemma_echo_fits(m: CoreModel)
    requires
        m.ok(),
    ensures
        m.echo_ok(),
        m.echo_buf.len() == ECHO_BUF_SIZE,
{
    reveal(CoreModel::ok);
}

impl<const CONNS: usize, const SND: usize, const RCV: usize> StackCore<CONNS, SND, RCV> {
    /// Serialize the waiting echo reply, which waits no more.
    pub fn emit_echo(&mut self, e: EchoReply, tx: &mut [u8]) -> (r: usize)
        requires
            old(self).wf(),
            old(self)@.echo == Some(e),
            old(tx)@.len() >= old(self)@.cfg.mtu,
        ensures
            ({
                let (m, g) = (CoreModel { echo: None, ..old(self)@ }).echo_sent(e);
                &&& final(self)@ == m
                &&& r == g.len()
                &&& r <= old(self)@.cfg.mtu
                &&& final(tx)@ == splice(old(tx)@, 0, g)
            }),
            final(self).wf(),
    {
        proof {
            lemma_echo_fits(self@);
            lemma_echo_gone(self@);
        }
        self.echo = None;
        proof {
            reveal(CoreModel::echo_sent);
        }
        let ghost a = self@;
        let n: usize = match (&e.local, &e.remote) {
            (IpAddr::V4(l), IpAddr::V4(r)) => {
                let ident: u16 = self.next_ident();
                let body: &[u8] = &self.echo_buf[0..e.len];
                emit_echo_v4(*l, *r, e.rest, body, self.cfg.ttl, ident, tx)
            },
            (IpAddr::V6(l), IpAddr::V6(r)) => {
                let body: &[u8] = &self.echo_buf[0..e.len];
                emit_echo_v6(l, r, e.rest, body, self.cfg.ttl, tx)
            },
            _ => 0,
        };
        self.count_tx();
        self.stats = StackStats { echo_tx: self.stats.echo_tx.saturating_add(1), ..self.stats };
        proof {
            lemma_ok_frame(a, self@);
        }
        n
    }
}

/// Without its echo reply the stack is in order too.
proof fn lemma_echo_gone(m: CoreModel)
    requires
        m.ok(),
    ensures
        (CoreModel { echo: None, ..m }).ok(),
{
    reveal(CoreModel::ok);
}

} // verus!
