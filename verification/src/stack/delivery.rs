//! What a datagram's payload does to the stack.
use super::host::{
    lemma_ok_frame, lemma_params_ok, lemma_path_ok, lemma_reset_queued_ok, lemma_token_taken_ok,
    lemma_with_conn_ok, StackCore,
};
use super::model::{
    conn_index, counted, free_index, overhead, CoreModel, CtlSegment, EchoReply, StackStats,
    V4_OVERHEAD, V6_OVERHEAD,
};
use crate::config::ECHO_BUF_SIZE;
use crate::ip::pmtu::{implied_mtu_is_within_bounds, path_mtu, reported_to};
use crate::tcp::conn::input::{segment_len, Segment};
use crate::tcp::conn::{ConnModel, Connection, Effects, FxModel, PeerSyn};
use crate::tcp::isn::isn_value;
use crate::tcp::seq::SeqNr;
use crate::time::Instant;
use crate::types::{IpAddr, SocketAddr};
use crate::wire::icmp::{pseudo_v6, quoted_fields};
use crate::wire::tcp::{parsed_scale_is_legal, OptionsModel, TcpHeader, TcpOptions};
use crate::wire::{be16, be32, icmp, ipv4, ipv6, proto, splice, write_bytes, WireError};
use vstd::prelude::*;

verus! {

impl CoreModel {
    /// With a malformed datagram counted.
    pub open spec fn malformed(self) -> CoreModel {
        CoreModel {
            stats: StackStats { rx_malformed: counted(self.stats.rx_malformed), ..self.stats },
            ..self
        }
    }

    /// With a datagram for somebody else counted.
    pub open spec fn not_local(self) -> CoreModel {
        CoreModel {
            stats: StackStats { rx_not_local: counted(self.stats.rx_not_local), ..self.stats },
            ..self
        }
    }

    /// With a datagram from an impossible source counted.
    pub open spec fn martian(self) -> CoreModel {
        CoreModel {
            stats: StackStats {
                rx_martian_src: counted(self.stats.rx_martian_src),
                ..self.stats
            },
            ..self
        }
    }

    /// With an accepted segment counted.
    pub open spec fn seg_counted(self) -> CoreModel {
        CoreModel {
            stats: StackStats { segs_rx: counted(self.stats.segs_rx), ..self.stats },
            ..self
        }
    }

    /// Whether nothing may be sent back to an address (RFC 1122 section
    /// 4.2.3.10): it is not a unicast one, or one of our own.
    pub open spec fn is_martian(self, src: IpAddr) -> bool {
        !src.unicast_source() || self.cfg.owns(src)
    }

    // ----- TCP -----

    /// After a segment reached the connection in slot `idx`.
    #[verifier::opaque]
    pub open spec fn segment_taken(self, now: Instant, idx: int, seg: Segment) -> CoreModel {
        let (n, fx) = self.conns[idx]->0.arrived(
            now,
            seg,
            self.snd_cap as int,
            FxModel::empty(),
        );
        self.with_conn(idx, Some(n)).effects(now, idx, fx)
    }

    /// After a SYN reached a port that is listened on (RFC 9293 section
    /// 3.10.7.2). Without entropy or a free slot it is dropped; the peer
    /// retries.
    #[verifier::opaque]
    pub open spec fn syn_accepted(
        self,
        now: Instant,
        local: SocketAddr,
        remote: SocketAddr,
        syn: PeerSyn,
    ) -> CoreModel {
        let idx = free_index(self.conns) as int;
        if self.key is None || idx >= self.conns.len() {
            self
        } else {
            self.with_conn(
                idx,
                Some(
                    ConnModel::accepted(
                        self.cfg,
                        self.params_for(now, remote.ip),
                        local,
                        remote,
                        isn_value(self.key->0, now, local, remote),
                        syn,
                        self.rcv_cap,
                    ),
                ),
            )
        }
    }

    /// The reset that answers a segment to a closed port (RFC 9293 section
    /// 3.10.7.1).
    pub open spec fn refusal(local: SocketAddr, remote: SocketAddr, seg: Segment) -> CtlSegment {
        if seg.flags.ack() {
            CtlSegment { local, remote, seq: seg.ack, ack: None }
        } else {
            CtlSegment {
                local,
                remote,
                seq: SeqNr(0),
                ack: Some(seg.seq.add(seg.len() as u32)),
            }
        }
    }

    /// After a segment that no connection and no listener takes: it is
    /// answered by a reset, within the challenge budget, unless it is itself
    /// one.
    #[verifier::opaque]
    pub open spec fn segment_refused(
        self,
        now: Instant,
        local: SocketAddr,
        remote: SocketAddr,
        seg: Segment,
    ) -> CoreModel {
        if seg.flags.rst() {
            self
        } else {
            let (m, ok) = self.token_taken(now);
            if ok {
                m.reset_queued(Self::refusal(local, remote, seg))
            } else {
                m
            }
        }
    }

    /// After a segment between two endpoints arrived.
    #[verifier::opaque]
    pub open spec fn segment_routed(
        self,
        now: Instant,
        local: SocketAddr,
        remote: SocketAddr,
        seg: Segment,
    ) -> CoreModel {
        let idx = conn_index(self.conns, local, remote);
        if idx < self.conns.len() {
            self.seg_counted().segment_taken(now, idx as int, seg)
        } else if seg.flags.syn() && !seg.flags.ack() && !seg.flags.rst()
            && self.listeners.contains(local.port) {
            self.seg_counted().syn_accepted(
                now,
                local,
                remote,
                PeerSyn {
                    seq: seg.seq,
                    window: seg.window,
                    mss: seg.opts.mss,
                    wscale: seg.opts.window_scale,
                    sack_permitted: seg.opts.sack_permitted,
                },
            )
        } else {
            self.segment_refused(now, local, remote, seg)
        }
    }

    /// After a TCP segment arrived. One from a martian source is dropped
    /// unanswered; one that does not parse, or with port zero, counts as
    /// malformed.
    #[verifier::opaque]
    pub open spec fn tcp_delivered(
        self,
        now: Instant,
        src: IpAddr,
        dst: IpAddr,
        bytes: Seq<u8>,
    ) -> CoreModel {
        if self.is_martian(src) {
            self.martian()
        } else {
            match crate::wire::tcp::parsed(bytes, src, dst) {
                Err(_) => self.malformed(),
                Ok((h, opts, payload)) => if h.src_port == 0 || h.dst_port == 0 {
                    self.malformed()
                } else {
                    self.segment_routed(
                        now,
                        SocketAddr { ip: dst, port: h.dst_port },
                        SocketAddr { ip: src, port: h.src_port },
                        Segment::of(h, opts, payload),
                    )
                },
            }
        }
    }

    // ----- ICMP -----

    /// After a "packet too big" for the connection in slot `idx`: the shared
    /// estimate is lowered, and the connection is told in any case, as another
    /// one may have lowered it before.
    #[verifier::opaque]
    pub open spec fn path_reported(self, now: Instant, idx: int, mtu: u32) -> CoreModel {
        let c = self.conns[idx]->0;
        let ip = c.tcb.remote.ip;
        let (pmtu, new) = reported_to(self.pmtu, now, self.cfg.mtu, ip, mtu);
        CoreModel { pmtu, ..self }.with_conn(
            idx,
            Some(c.path_shrunk(now, (new - overhead(ip)) as u16)),
        )
    }

    /// After a hard error for the connection in slot `idx`.
    #[verifier::opaque]
    pub open spec fn path_failed(self, now: Instant, idx: int) -> CoreModel {
        let (n, fx) = self.conns[idx]->0.unreachable(FxModel::empty());
        self.with_conn(idx, Some(n)).effects(now, idx, fx)
    }

    /// After an ICMP error that quotes one of our segments. It counts only if
    /// the connection exists and the quoted sequence number could be in
    /// flight (RFC 5927 section 4). Codes are those of IPv4; 255 stands for a
    /// hard error of ICMPv6.
    #[verifier::opaque]
    pub open spec fn error_reported(
        self,
        now: Instant,
        local: SocketAddr,
        remote: SocketAddr,
        seq: SeqNr,
        code: u8,
        mtu: u32,
    ) -> CoreModel {
        let idx = conn_index(self.conns, local, remote);
        if idx >= self.conns.len() || !self.conns[idx as int]->0.quote_plausible(seq) {
            self
        } else if code == 4 {
            self.path_reported(now, idx as int, mtu)
        } else if code == 2 || code == 3 || code == 255 {
            self.path_failed(now, idx as int)
        } else {
            self
        }
    }

    /// After an echo request: a reply is prepared, unless one is pending
    /// already, the source is martian, or it would not fit.
    #[verifier::opaque]
    pub open spec fn echo_queued(
        self,
        src: IpAddr,
        dst: IpAddr,
        rest: [u8; 4],
        body: Seq<u8>,
    ) -> CoreModel {
        if !self.cfg.answer_echo || self.echo is Some {
            self
        } else if self.is_martian(src) {
            self.martian()
        } else if body.len() + (if src is V4 {
            28int
        } else {
            48
        }) > self.cfg.mtu || body.len() > ECHO_BUF_SIZE {
            self
        } else {
            CoreModel {
                echo: Some(
                    EchoReply { local: dst, remote: src, rest, len: body.len() as usize },
                ),
                echo_buf: splice(self.echo_buf, 0, body),
                ..self
            }
        }
    }

    /// After an ICMP "destination unreachable" with this code and MTU field,
    /// quoting these bytes.
    #[verifier::opaque]
    pub open spec fn quote4_taken(self, now: Instant, code: u8, mtu: u16, quote: Seq<u8>) -> CoreModel {
        match ipv4::quoted(quote) {
            Err(_) => self,
            Ok((h, l4)) => if h.proto != proto::TCP {
                self
            } else {
                match quoted_fields(l4) {
                    Err(_) => self,
                    Ok(q) => self.error_reported(
                        now,
                        SocketAddr { ip: IpAddr::V4(h.src), port: q.src_port },
                        SocketAddr { ip: IpAddr::V4(h.dst), port: q.dst_port },
                        SeqNr(q.seq),
                        code,
                        mtu as u32,
                    ),
                }
            },
        }
    }

    /// After an ICMP message arrived.
    #[verifier::opaque]
    pub open spec fn icmp4_delivered(
        self,
        now: Instant,
        src: IpAddr,
        dst: IpAddr,
        bytes: Seq<u8>,
    ) -> CoreModel {
        match icmp::parsed(bytes, bytes) {
            Err(_) => self.malformed(),
            Ok((m, rest)) => if m.kind == icmp::v4::ECHO_REQUEST && m.code == 0 {
                self.echo_queued(src, dst, m.rest, rest)
            } else if m.kind == icmp::v4::DEST_UNREACHABLE {
                self.quote4_taken(now, m.code, be16(m.rest@, 2), rest)
            } else {
                self
            },
        }
    }

    /// After an ICMPv6 error quoting these bytes: a "packet too big" with its
    /// MTU, or a hard error.
    #[verifier::opaque]
    pub open spec fn quote6_taken(self, now: Instant, code: u8, mtu: u32, quote: Seq<u8>) -> CoreModel {
        match ipv6::quoted(quote) {
            Err(_) => self,
            Ok((src, dst, next, l4)) => if next != proto::TCP {
                self
            } else {
                match quoted_fields(l4) {
                    Err(_) => self,
                    Ok(q) => self.error_reported(
                        now,
                        SocketAddr { ip: IpAddr::V6(src), port: q.src_port },
                        SocketAddr { ip: IpAddr::V6(dst), port: q.dst_port },
                        SeqNr(q.seq),
                        code,
                        mtu,
                    ),
                }
            },
        }
    }

    /// After an ICMPv6 message arrived.
    #[verifier::opaque]
    pub open spec fn icmp6_delivered(
        self,
        now: Instant,
        src: IpAddr,
        dst: IpAddr,
        bytes: Seq<u8>,
    ) -> CoreModel {
        match (src, dst) {
            (IpAddr::V6(s), IpAddr::V6(d)) => match icmp::parsed(
                bytes,
                pseudo_v6(s, d, bytes.len()) + bytes,
            ) {
                Err(_) => self.malformed(),
                Ok((m, rest)) => if m.kind == icmp::v6::ECHO_REQUEST {
                    self.echo_queued(src, dst, m.rest, rest)
                } else if m.kind == icmp::v6::PACKET_TOO_BIG {
                    self.quote6_taken(now, 4, be32(m.rest@, 0), rest)
                } else if m.kind == icmp::v6::DEST_UNREACHABLE && m.code
                    == icmp::v6::CODE_PORT_UNREACHABLE {
                    self.quote6_taken(now, 255, 0, rest)
                } else {
                    self
                },
            },
            _ => self,
        }
    }

    /// After an upper-layer payload arrived, by protocol. What no protocol
    /// takes is dropped.
    #[verifier::opaque]
    pub open spec fn dispatched(
        self,
        now: Instant,
        src: IpAddr,
        dst: IpAddr,
        protocol: u8,
        bytes: Seq<u8>,
    ) -> CoreModel {
        if protocol == proto::TCP {
            self.tcp_delivered(now, src, dst, bytes)
        } else if protocol == proto::ICMP && src is V4 {
            self.icmp4_delivered(now, src, dst, bytes)
        } else if protocol == proto::ICMPV6 && src is V6 {
            self.icmp6_delivered(now, src, dst, bytes)
        } else {
            self
        }
    }

    /// After the payload of a whole datagram arrived. With IPv6, extension
    /// headers may lead it (RFC 8200 section 4.5).
    #[verifier::opaque]
    pub open spec fn delivered(
        self,
        now: Instant,
        src: IpAddr,
        dst: IpAddr,
        protocol: u8,
        payload: Seq<u8>,
    ) -> CoreModel {
        if src is V4 {
            self.dispatched(now, src, dst, protocol, payload)
        } else {
            match ipv6::payload_walked(protocol, payload) {
                Err(_) => self.malformed(),
                Ok((p, body)) => self.dispatched(now, src, dst, p, body),
            }
        }
    }
}

proof fn lemma_parsed_legal(bytes: Seq<u8>, src: IpAddr, dst: IpAddr)
    requires
        bytes.len() <= 0xffff,
    ensures
        crate::wire::tcp::parsed(bytes, src, dst) matches Ok((h, o, p)) ==> Segment::of(
            h,
            o,
            p,
        ).legal(),
{
    if let Ok((h, o, p)) = crate::wire::tcp::parsed(bytes, src, dst) {
        parsed_scale_is_legal(bytes.subrange(20, h.header_len as int), OptionsModel::empty());
    }
}

impl<const CONNS: usize, const SND: usize, const RCV: usize> StackCore<CONNS, SND, RCV> {
    /// Count a malformed datagram.
    pub fn count_malformed(&mut self)
        requires
            old(self).wf(),
        ensures
            final(self)@ == old(self)@.malformed(),
            final(self).wf(),
    {
        self.stats = StackStats {
            rx_malformed: self.stats.rx_malformed.saturating_add(1),
            ..self.stats
        };
        proof {
            lemma_ok_frame(old(self)@, self@);
        }
    }

    /// Count a datagram for somebody else.
    pub fn count_not_local(&mut self)
        requires
            old(self).wf(),
        ensures
            final(self)@ == old(self)@.not_local(),
            final(self).wf(),
    {
        self.stats = StackStats {
            rx_not_local: self.stats.rx_not_local.saturating_add(1),
            ..self.stats
        };
        proof {
            lemma_ok_frame(old(self)@, self@);
        }
    }

    fn count_martian(&mut self)
        requires
            old(self).wf(),
        ensures
            final(self)@ == old(self)@.martian(),
            final(self).wf(),
    {
        self.stats = StackStats {
            rx_martian_src: self.stats.rx_martian_src.saturating_add(1),
            ..self.stats
        };
        proof {
            lemma_ok_frame(old(self)@, self@);
        }
    }

    fn count_segment(&mut self)
        requires
            old(self).wf(),
        ensures
            final(self)@ == old(self)@.seg_counted(),
            final(self).wf(),
    {
        self.stats = StackStats { segs_rx: self.stats.segs_rx.saturating_add(1), ..self.stats };
        proof {
            lemma_ok_frame(old(self)@, self@);
        }
    }

    /// Never reply to a non-unicast source (RFC 1122 section 4.2.3.10): it
    /// prevents reflection toward multicast/broadcast and loops. An address of
    /// our own as source is spoofed self-traffic.
    fn source_is_martian(&self, src: &IpAddr) -> (r: bool)
        requires
            self.parts_wf(),
        ensures
            r == self@.is_martian(*src),
    {
        !src.is_unicast_source() || self.cfg.is_local(src)
    }

    fn deliver_tcp(&mut self, now: Instant, src: IpAddr, dst: IpAddr, seg: &[u8])
        requires
            old(self).wf(),
            src is V4 <==> dst is V4,
            old(self)@.cfg.owns(dst),
            seg@.len() <= 0xffff,
        ensures
            final(self)@ == old(self)@.tcp_delivered(now, src, dst, seg@),
            final(self).wf(),
    {
        proof {
            reveal(CoreModel::tcp_delivered);
            lemma_parsed_legal(seg@, src, dst);
        }
        if self.source_is_martian(&src) {
            self.count_martian();
            return;
        }
        match crate::wire::tcp::parse(seg, &src, &dst) {
            Err(_) => self.count_malformed(),
            Ok((h, opts, payload)) => {
                // Port 0 is reserved (RFC 6335 section 6): never demux on it
                // and never accept it as a remote endpoint.
                if h.src_port == 0 || h.dst_port == 0 {
                    self.count_malformed();
                } else {
                    let local = SocketAddr { ip: dst, port: h.dst_port };
                    let remote = SocketAddr { ip: src, port: h.src_port };
                    self.route_segment(now, local, remote, &h, &opts, payload);
                }
            },
        }
    }

    fn route_segment(
        &mut self,
        now: Instant,
        local: SocketAddr,
        remote: SocketAddr,
        h: &TcpHeader,
        opts: &TcpOptions,
        payload: &[u8],
    )
        requires
            old(self).wf(),
            local.ip is V4 <==> remote.ip is V4,
            old(self)@.cfg.owns(local.ip),
            opts.sack_blocks.wf(),
            Segment::of(*h, opts@, payload@).legal(),
        ensures
            final(self)@ == old(self)@.segment_routed(
                now,
                local,
                remote,
                Segment::of(*h, opts@, payload@),
            ),
            final(self).wf(),
    {
        proof {
            reveal(CoreModel::segment_routed);
        }
        if let Some(idx) = self.conns.find(&local, &remote) {
            self.count_segment();
            self.take_segment(now, idx, h, opts, payload);
            return;
        }
        // A SYN to a listening port creates a connection (LISTEN state per
        // RFC 9293 section 3.10.7.2 lives here at the stack).
        if h.flags.syn() && !h.flags.ack() && !h.flags.rst() && self.listens_on(local.port) {
            self.count_segment();
            let syn = PeerSyn {
                seq: SeqNr(h.seq),
                window: h.window,
                mss: opts.mss,
                wscale: opts.window_scale,
                sack_permitted: opts.sack_permitted,
            };
            self.accept_syn(now, local, remote, syn);
            return;
        }
        self.refuse_segment(now, local, remote, h, opts, payload);
    }

    fn take_segment(
        &mut self,
        now: Instant,
        idx: usize,
        h: &TcpHeader,
        opts: &TcpOptions,
        payload: &[u8],
    )
        requires
            old(self).wf(),
            idx < CONNS,
            old(self)@.conns[idx as int] is Some,
            opts.sack_blocks.wf(),
            Segment::of(*h, opts@, payload@).legal(),
        ensures
            final(self)@ == old(self)@.segment_taken(
                now,
                idx as int,
                Segment::of(*h, opts@, payload@),
            ),
            final(self).wf(),
    {
        proof {
            reveal(CoreModel::segment_taken);
            lemma_path_ok(self@, idx as int);
        }
        let mut fx = Effects::default();
        self.conns.on_segment(idx, now, h, opts, payload, &mut fx);
        proof {
            lemma_with_conn_ok(old(self)@, idx as int, self@.conns[idx as int]);
        }
        self.process_effects(now, idx, &fx);
    }

    fn accept_syn(&mut self, now: Instant, local: SocketAddr, remote: SocketAddr, syn: PeerSyn)
        requires
            old(self).wf(),
            local.ip is V4 <==> remote.ip is V4,
            old(self)@.cfg.owns(local.ip),
            syn.wscale matches Some(s) ==> s <= 14,
        ensures
            final(self)@ == old(self)@.syn_accepted(now, local, remote, syn),
            final(self).wf(),
    {
        proof {
            reveal(CoreModel::syn_accepted);
            lemma_params_ok(self@, now, local, remote);
        }
        // No secure ISN available, or table full: drop, the peer retries.
        if let Some(iss) = self.isn.generate(now, local, remote) {
            if let Some(idx) = self.conns.free_slot() {
                let params = self.conn_params(now, &remote.ip);
                let c = Connection::server(&self.cfg, params, local, remote, iss, syn);
                proof {
                    lemma_with_conn_ok(self@, idx as int, Some(c@));
                }
                self.conns.put(idx, Some(c));
            }
        }
    }

    /// No matching connection (CLOSED, RFC 9293 section 3.10.7.1): reset,
    /// unless the offender is itself a reset. Rate-limited through the same
    /// bucket as challenge ACKs: unbounded resets allow efficient port scans
    /// and reflection toward a spoofed victim.
    fn refuse_segment(
        &mut self,
        now: Instant,
        local: SocketAddr,
        remote: SocketAddr,
        h: &TcpHeader,
        opts: &TcpOptions,
        payload: &[u8],
    )
        requires
            old(self).wf(),
            local.ip is V4 <==> remote.ip is V4,
            old(self)@.cfg.owns(local.ip),
            Segment::of(*h, opts@, payload@).legal(),
        ensures
            final(self)@ == old(self)@.segment_refused(
                now,
                local,
                remote,
                Segment::of(*h, opts@, payload@),
            ),
            final(self).wf(),
    {
        proof {
            reveal(CoreModel::segment_refused);
            lemma_token_taken_ok(self@, now);
        }
        if h.flags.rst() {
            return;
        }
        if !self.take_challenge_token(now) {
            return;
        }
        let reply = if h.flags.ack() {
            CtlSegment { local, remote, seq: SeqNr(h.ack), ack: None }
        } else {
            let len: u32 = segment_len(h, payload.len() as u32);
            CtlSegment { local, remote, seq: SeqNr(0), ack: Some(SeqNr(h.seq).add(len)) }
        };
        proof {
            lemma_reset_queued_ok(self@, reply);
        }
        self.queue_ctl(reply);
    }
}

/// Whether a quoted sequence number could be in flight (RFC 5927 section 4).
fn quote_ok<const SND: usize, const RCV: usize>(c: &Connection<SND, RCV>, seq: SeqNr) -> (r: bool)
    ensures
        r == c@.quote_plausible(seq),
{
    c.icmp_quote_plausible(seq)
}

impl<const CONNS: usize, const SND: usize, const RCV: usize> StackCore<CONNS, SND, RCV> {
    /// Common ICMP-error plumbing. `code` is normalized to the IPv4 codes;
    /// 255 means "hard unreachable" from ICMPv6.
    fn on_path_error(
        &mut self,
        now: Instant,
        local: SocketAddr,
        remote: SocketAddr,
        seq: SeqNr,
        code: u8,
        mtu: u32,
    )
        requires
            old(self).wf(),
        ensures
            final(self)@ == old(self)@.error_reported(now, local, remote, seq, code, mtu),
            final(self).wf(),
    {
        proof {
            reveal(CoreModel::error_reported);
        }
        if let Some(idx) = self.conns.find(&local, &remote) {
            let plausible = match self.conns.get(idx) {
                Some(c) => quote_ok(c, seq),
                None => false,
            };
            if !plausible {
                return;
            }
            if code == 4 {
                self.on_path_mtu(now, idx, mtu);
            } else if code == 2 || code == 3 || code == 255 {
                self.on_path_failure(now, idx);
            }
        }
    }

    /// Path MTU discovery (RFC 1191 / RFC 8201).
    fn on_path_mtu(&mut self, now: Instant, idx: usize, mtu: u32)
        requires
            old(self).wf(),
            idx < CONNS,
            old(self)@.conns[idx as int] is Some,
        ensures
            final(self)@ == old(self)@.path_reported(now, idx as int, mtu),
            final(self).wf(),
    {
        proof {
            reveal(CoreModel::path_reported);
            lemma_path_ok(self@, idx as int);
        }
        let ip = match self.conns.get(idx) {
            Some(c) => c.remote().ip,
            None => {
                return;
            },
        };
        let over: u16 = if ip.is_v4() {
            V4_OVERHEAD
        } else {
            V6_OVERHEAD
        };
        proof {
            let current = path_mtu(self@.pmtu, now, self@.cfg.mtu, ip);
            implied_mtu_is_within_bounds(current, self@.cfg.mtu, ip, mtu);
        }
        let new: u16 = self.pmtu.update(now, self.cfg.mtu, &ip, mtu);
        proof {
            lemma_ok_frame(old(self)@, self@);
        }
        let ghost a = self@;
        self.conns.on_pmtu_change(idx, now, new - over);
        proof {
            lemma_with_conn_ok(a, idx as int, self@.conns[idx as int]);
        }
    }

    /// Hard error (RFC 1122 section 4.2.3.9).
    fn on_path_failure(&mut self, now: Instant, idx: usize)
        requires
            old(self).wf(),
            idx < CONNS,
            old(self)@.conns[idx as int] is Some,
        ensures
            final(self)@ == old(self)@.path_failed(now, idx as int),
            final(self).wf(),
    {
        proof {
            reveal(CoreModel::path_failed);
            lemma_path_ok(self@, idx as int);
        }
        let mut fx = Effects::default();
        self.conns.on_unreachable(idx, &mut fx);
        proof {
            lemma_with_conn_ok(old(self)@, idx as int, self@.conns[idx as int]);
        }
        self.process_effects(now, idx, &fx);
    }

    fn queue_echo(&mut self, src: IpAddr, dst: IpAddr, rest: [u8; 4], payload: &[u8])
        requires
            old(self).wf(),
            src is V4 <==> dst is V4,
            old(self)@.cfg.owns(dst),
            payload@.len() <= 0xffff,
        ensures
            final(self)@ == old(self)@.echo_queued(src, dst, rest, payload@),
            final(self).wf(),
    {
        proof {
            reveal(CoreModel::echo_queued);
        }
        if !self.cfg.answer_echo || self.echo.is_some() {
            // One pending reply; floods are shed.
            return;
        }
        if self.source_is_martian(&src) {
            self.count_martian();
            return;
        }
        let over: usize = if src.is_v4() {
            28
        } else {
            48
        };
        if payload.len() + over > self.cfg.mtu as usize || payload.len() > ECHO_BUF_SIZE {
            return;
        }
        write_bytes(&mut self.echo_buf, 0, payload);
        self.echo = Some(EchoReply { local: dst, remote: src, rest, len: payload.len() });
        proof {
            lemma_echo_ok(old(self)@, self@);
        }
    }

    fn deliver_icmp4(&mut self, now: Instant, src: IpAddr, dst: IpAddr, body: &[u8])
        requires
            old(self).wf(),
            src is V4,
            dst is V4,
            old(self)@.cfg.owns(dst),
            body@.len() <= 0xffff,
        ensures
            final(self)@ == old(self)@.icmp4_delivered(now, src, dst, body@),
            final(self).wf(),
    {
        proof {
            reveal(CoreModel::icmp4_delivered);
        }
        match icmp::parse_v4(body) {
            Err(_) => self.count_malformed(),
            Ok((m, rest)) => {
                if m.kind == icmp::v4::ECHO_REQUEST && m.code == 0 {
                    self.queue_echo(src, dst, m.rest, rest);
                } else if m.kind == icmp::v4::DEST_UNREACHABLE {
                    self.take_quote4(now, m.code, m.mtu_v4(), rest);
                }
                // Time-exceeded etc.: advisory only.
            },
        }
    }

    fn take_quote4(&mut self, now: Instant, code: u8, mtu: u16, quote: &[u8])
        requires
            old(self).wf(),
        ensures
            final(self)@ == old(self)@.quote4_taken(now, code, mtu, quote@),
            final(self).wf(),
    {
        proof {
            reveal(CoreModel::quote4_taken);
        }
        if let Ok((h, l4)) = ipv4::parse_quote(quote) {
            if h.proto == proto::TCP {
                if let Ok(q) = quoted_ports(l4) {
                    let local = SocketAddr { ip: IpAddr::V4(h.src), port: q.src_port };
                    let remote = SocketAddr { ip: IpAddr::V4(h.dst), port: q.dst_port };
                    self.on_path_error(now, local, remote, SeqNr(q.seq), code, mtu as u32);
                }
            }
        }
    }

    fn deliver_icmp6(&mut self, now: Instant, src: IpAddr, dst: IpAddr, body: &[u8])
        requires
            old(self).wf(),
            src is V6,
            dst is V6,
            old(self)@.cfg.owns(dst),
            body@.len() <= 0xffff,
        ensures
            final(self)@ == old(self)@.icmp6_delivered(now, src, dst, body@),
            final(self).wf(),
    {
        proof {
            reveal(CoreModel::icmp6_delivered);
        }
        match (&src, &dst) {
            (IpAddr::V6(s), IpAddr::V6(d)) => match icmp::parse_v6(body, s, d) {
                Err(_) => self.count_malformed(),
                Ok((m, rest)) => {
                    if m.kind == icmp::v6::ECHO_REQUEST {
                        self.queue_echo(src, dst, m.rest, rest);
                    } else if m.kind == icmp::v6::PACKET_TOO_BIG {
                        // Mapped onto the IPv4 "fragmentation needed".
                        self.take_quote6(now, icmp::v4::CODE_FRAG_NEEDED, m.mtu_v6(), rest);
                    } else if m.kind == icmp::v6::DEST_UNREACHABLE && m.code
                        == icmp::v6::CODE_PORT_UNREACHABLE {
                        self.take_quote6(now, 255, 0, rest);
                    }
                },
            },
            _ => {},
        }
    }

    fn take_quote6(&mut self, now: Instant, code: u8, mtu: u32, quote: &[u8])
        requires
            old(self).wf(),
        ensures
            final(self)@ == old(self)@.quote6_taken(now, code, mtu, quote@),
            final(self).wf(),
    {
        proof {
            reveal(CoreModel::quote6_taken);
        }
        if let Ok((src, dst, next, l4)) = ipv6::parse_quote(quote) {
            if next == proto::TCP {
                if let Ok(q) = quoted_ports(l4) {
                    let local = SocketAddr { ip: IpAddr::V6(src), port: q.src_port };
                    let remote = SocketAddr { ip: IpAddr::V6(dst), port: q.dst_port };
                    self.on_path_error(now, local, remote, SeqNr(q.seq), code, mtu);
                }
            }
        }
    }

    fn dispatch(&mut self, now: Instant, src: IpAddr, dst: IpAddr, protocol: u8, body: &[u8])
        requires
            old(self).wf(),
            src is V4 <==> dst is V4,
            old(self)@.cfg.owns(dst),
            body@.len() <= 0xffff,
        ensures
            final(self)@ == old(self)@.dispatched(now, src, dst, protocol, body@),
            final(self).wf(),
    {
        proof {
            reveal(CoreModel::dispatched);
        }
        if protocol == proto::TCP {
            self.deliver_tcp(now, src, dst, body);
        } else if protocol == proto::ICMP && src.is_v4() {
            self.deliver_icmp4(now, src, dst, body);
        } else if protocol == proto::ICMPV6 && !src.is_v4() {
            self.deliver_icmp6(now, src, dst, body);
        }
        // Unknown transport: silently dropped; no protocol-unreachable is
        // generated.
    }

    /// Dispatch an upper-layer payload to its protocol handler. An IPv6
    /// payload may carry leading extension headers; they are walked here so
    /// reassembled and unfragmented datagrams take the same dispatch.
    pub fn deliver(&mut self, now: Instant, src: IpAddr, dst: IpAddr, protocol: u8, payload: &[u8])
        requires
            old(self).wf(),
            src is V4 <==> dst is V4,
            old(self)@.cfg.owns(dst),
            payload@.len() <= 0xffff,
        ensures
            final(self)@ == old(self)@.delivered(now, src, dst, protocol, payload@),
            final(self).wf(),
    {
        proof {
            reveal(CoreModel::delivered);
        }
        if src.is_v4() {
            self.dispatch(now, src, dst, protocol, payload);
        } else {
            match ipv6::walk_payload(protocol, payload) {
                Err(_) => self.count_malformed(),
                Ok((p, body)) => self.dispatch(now, src, dst, p, body),
            }
        }
    }
}

/// Ports and sequence number at the start of a quoted TCP header.
fn quoted_ports(l4: &[u8]) -> (r: Result<icmp::QuotedTcp, WireError>)
    ensures
        r == quoted_fields(l4@),
{
    icmp::quoted_tcp(l4)
}

/// An echo reply that fits is in order.
proof fn lemma_echo_ok(a: CoreModel, b: CoreModel)
    requires
        a.ok(),
        b == (CoreModel { echo: b.echo, echo_buf: b.echo_buf, ..a }),
        b.echo_buf.len() == a.echo_buf.len(),
        b.echo_ok(),
    ensures
        b.ok(),
{
    reveal(CoreModel::ok);
}

} // verus!
