//! ICMPv4 (RFC 792) and ICMPv6 (RFC 4443) messages.
//!
//! Only what a host TCP stack needs: echo request/reply, destination
//! unreachable, fragmentation-needed / packet-too-big, and time exceeded.
//! Error messages carry a quote of the offending datagram which is parsed to
//! locate the affected connection.
pub mod v4;
pub mod v6;

use super::checksum::{
    self, checksum_field_verifies, internet_checksum, pseudo_header, Checksum,
};
use super::ipv4::{octets4, result_view};
use super::tcp::{lemma_segment_fields, EmitModel, MAX_HEADER_LEN};
use super::{
    be16, be32, bytes16, proto, read_u16, read_u32, splice, tail, write_bytes, write_u16, WireError,
};
use crate::types::IpAddr;
use vstd::prelude::*;

verus! {

/// Common minimal ICMP header length (type, code, checksum, 4 "rest" bytes).
pub const HEADER_LEN: usize = 8;

/// A parsed ICMP message (either family; the caller knows which from the IP
/// protocol number).
#[derive(Debug, Clone, Copy)]
pub struct IcmpMessage {
    /// Message type.
    pub kind: u8,
    /// Message code.
    pub code: u8,
    /// Bytes 4..8 ("rest of header"): echo ident/seq, MTU field, unused.
    pub rest: [u8; 4],
}

impl IcmpMessage {
    /// The MTU carried in an ICMPv6 Packet Too Big message (RFC 4443 section
    /// 3.2: full 32-bit field).
    pub fn mtu_v6(&self) -> (r: u32)
        ensures
            r == be32(self.rest@, 0),
    {
        read_u32(&self.rest, 0)
    }

    /// The Next-Hop MTU carried in an ICMPv4 Destination Unreachable /
    /// Fragmentation Needed message (RFC 1191 section 4: low 16 bits only;
    /// bytes 4-5 are "unused"). Reading all 32 bits mis-parses any router that
    /// leaves garbage in the unused field, silently discarding a legitimate
    /// PMTU signal.
    pub fn mtu_v4(&self) -> (r: u16)
        ensures
            r == be16(self.rest@, 2),
    {
        read_u16(&self.rest, 2)
    }
}

/// The header fields of a message.
pub open spec fn message_fields(data: Seq<u8>) -> IcmpMessage {
    IcmpMessage { kind: data[0], code: data[1], rest: octets4(data, 4) }
}

/// The message in `data`, whose checksum covers `covered`, and its body; or
/// why it is dropped.
pub open spec fn parsed(data: Seq<u8>, covered: Seq<u8>) -> Result<
    (IcmpMessage, Seq<u8>),
    WireError,
> {
    if data.len() < HEADER_LEN {
        Err(WireError::Truncated)
    } else if internet_checksum(covered) != 0 {
        Err(WireError::BadChecksum)
    } else {
        Ok((message_fields(data), data.skip(8)))
    }
}

/// What the checksum of an ICMPv6 message covers besides the message.
pub open spec fn pseudo_v6(src: [u8; 16], dst: [u8; 16], len: nat) -> Seq<u8> {
    pseudo_header(IpAddr::V6(src), IpAddr::V6(dst), proto::ICMPV6, (len % 0x1_0000_0000) as u32)
}

/// A message with a zero checksum field.
pub open spec fn bare_message(kind: u8, code: u8, rest: [u8; 4], body: Seq<u8>) -> Seq<u8> {
    seq![kind, code, 0, 0, rest[0], rest[1], rest[2], rest[3]] + body
}

/// The bytes of an ICMPv4 message.
pub open spec fn message_v4(kind: u8, code: u8, rest: [u8; 4], body: Seq<u8>) -> Seq<u8> {
    let bare = bare_message(kind, code, rest, body);
    splice(bare, 2, bytes16(internet_checksum(bare)))
}

/// The bytes of an ICMPv6 message between two addresses.
pub open spec fn message_v6(
    kind: u8,
    code: u8,
    rest: [u8; 4],
    body: Seq<u8>,
    src: [u8; 16],
    dst: [u8; 16],
) -> Seq<u8> {
    let bare = bare_message(kind, code, rest, body);
    splice(
        bare,
        2,
        bytes16(internet_checksum(pseudo_v6(src, dst, bare.len()) + bare)),
    )
}

fn read_message(data: &[u8]) -> (r: (IcmpMessage, &[u8]))
    requires
        data@.len() >= HEADER_LEN,
    ensures
        r.0 == message_fields(data@),
        r.1@ == data@.skip(8),
{
    (
        IcmpMessage {
            kind: data[0],
            code: data[1],
            rest: [data[4], data[5], data[6], data[7]],
        },
        tail(data, HEADER_LEN),
    )
}

/// The checksum of an ICMPv6 message, its pseudo-header included.
fn checksum_v6(data: &[u8], src: &[u8; 16], dst: &[u8; 16]) -> (r: u16)
    ensures
        r == internet_checksum(pseudo_v6(*src, *dst, data@.len()) + data@),
{
    let mut c = Checksum::new();
    c.add_pseudo_v6(src, dst, proto::ICMPV6, (data.len() as u64 % 0x1_0000_0000) as u32);
    c.add_bytes(data);
    assert(Seq::<u8>::empty() + pseudo_v6(*src, *dst, data@.len()) + data@ =~= pseudo_v6(
        *src,
        *dst,
        data@.len(),
    ) + data@);
    c.finish()
}

/// Parse an ICMPv4 message; the checksum over the whole message is verified.
/// Returns the message and its body (quote or echo payload).
pub fn parse_v4(data: &[u8]) -> (r: Result<(IcmpMessage, &[u8]), WireError>)
    ensures
        result_view(r) == parsed(data@, data@),
{
    if data.len() < HEADER_LEN {
        return Err(WireError::Truncated);
    }
    if checksum::over(data) != 0 {
        return Err(WireError::BadChecksum);
    }
    Ok(read_message(data))
}

/// Parse an ICMPv6 message; the checksum includes the IPv6 pseudo-header.
pub fn parse_v6<'a>(data: &'a [u8], src: &[u8; 16], dst: &[u8; 16]) -> (r: Result<
    (IcmpMessage, &'a [u8]),
    WireError,
>)
    ensures
        result_view(r) == parsed(data@, pseudo_v6(*src, *dst, data@.len()) + data@),
{
    if data.len() < HEADER_LEN {
        return Err(WireError::Truncated);
    }
    if checksum_v6(data, src, dst) != 0 {
        return Err(WireError::BadChecksum);
    }
    Ok(read_message(data))
}

/// Write a message with a zero checksum field over `buf`.
fn write_bare(kind: u8, code: u8, rest: [u8; 4], body: &[u8], buf: &mut [u8])
    requires
        old(buf)@.len() >= HEADER_LEN + body@.len(),
    ensures
        final(buf)@ == splice(old(buf)@, 0, bare_message(kind, code, rest, body@)),
{
    let ghost start = buf@;
    let head: [u8; 8] = [kind, code, 0, 0, rest[0], rest[1], rest[2], rest[3]];
    write_bytes(buf, 0, &head);
    write_bytes(buf, HEADER_LEN, body);
    assert(buf@ =~= splice(start, 0, bare_message(kind, code, rest, body@)));
}

/// Emit an ICMPv4 message into `buf`; returns the total length.
pub fn emit_v4(kind: u8, code: u8, rest: [u8; 4], body: &[u8], buf: &mut [u8]) -> (r: usize)
    requires
        old(buf)@.len() >= HEADER_LEN + body@.len(),
    ensures
        r == HEADER_LEN + body@.len(),
        final(buf)@ == splice(old(buf)@, 0, message_v4(kind, code, rest, body@)),
{
    let ghost start = buf@;
    let n: usize = buf.len();
    let total: usize = HEADER_LEN + body.len();
    write_bare(kind, code, rest, body, buf);
    let ghost bare = bare_message(kind, code, rest, body@);
    assert(buf@.subrange(0, total as int) =~= bare);
    let cks: u16 = checksum::over(&buf[0..total]);
    write_u16(buf, 2, cks);
    assert(buf@ =~= splice(start, 0, message_v4(kind, code, rest, body@)));
    total
}

/// Emit an ICMPv6 message (the checksum needs the enclosing datagram's
/// addresses); returns the total length.
pub fn emit_v6(
    kind: u8,
    code: u8,
    rest: [u8; 4],
    body: &[u8],
    src: &[u8; 16],
    dst: &[u8; 16],
    buf: &mut [u8],
) -> (r: usize)
    requires
        old(buf)@.len() >= HEADER_LEN + body@.len(),
    ensures
        r == HEADER_LEN + body@.len(),
        final(buf)@ == splice(old(buf)@, 0, message_v6(kind, code, rest, body@, *src, *dst)),
{
    let ghost start = buf@;
    let n: usize = buf.len();
    let total: usize = HEADER_LEN + body.len();
    write_bare(kind, code, rest, body, buf);
    let ghost bare = bare_message(kind, code, rest, body@);
    assert(buf@.subrange(0, total as int) =~= bare);
    let cks: u16 = checksum_v6(&buf[0..total], src, dst);
    write_u16(buf, 2, cks);
    assert(buf@ =~= splice(start, 0, message_v6(kind, code, rest, body@, *src, *dst)));
    total
}

/// The TCP fields a quoted datagram exposes (RFC 792 guarantees the IP
/// header plus at least 8 bytes of payload: ports and sequence number).
#[derive(Debug, Clone, Copy, PartialEq, Eq, Structural)]
pub struct QuotedTcp {
    /// Source port of the quoted (our transmitted) segment.
    pub src_port: u16,
    /// Destination port.
    pub dst_port: u16,
    /// Sequence number of the quoted segment.
    pub seq: u32,
}

/// The quoted TCP fields of an upper-layer byte string.
pub open spec fn quoted_fields(l4: Seq<u8>) -> Result<QuotedTcp, WireError> {
    if l4.len() < 8 {
        Err(WireError::Truncated)
    } else {
        Ok(QuotedTcp { src_port: be16(l4, 0), dst_port: be16(l4, 2), seq: be32(l4, 4) })
    }
}

/// Extract the quoted TCP fields from an upper-layer byte slice.
pub fn quoted_tcp(l4: &[u8]) -> (r: Result<QuotedTcp, WireError>)
    ensures
        r == quoted_fields(l4@),
{
    if l4.len() < 8 {
        return Err(WireError::Truncated);
    }
    Ok(
        QuotedTcp {
            src_port: read_u16(l4, 0),
            dst_port: read_u16(l4, 2),
            seq: read_u32(l4, 4),
        },
    )
}

/// Parsing an emitted ICMPv4 message gives back its fields and body.
pub proof fn v4_round_trip(kind: u8, code: u8, rest: [u8; 4], body: Seq<u8>)
    ensures
        ({
            let m = message_v4(kind, code, rest, body);
            parsed(m, m) == Ok::<(IcmpMessage, Seq<u8>), WireError>(
                (IcmpMessage { kind, code, rest }, body),
            )
        }),
{
    let bare = bare_message(kind, code, rest, body);
    let m = message_v4(kind, code, rest, body);
    checksum_field_verifies(bare, 2);
    assert(m.skip(8) =~= body);
    assert(message_fields(m).rest =~= rest);
}

/// Parsing an emitted ICMPv6 message between the same addresses gives back
/// its fields and body.
pub proof fn v6_round_trip(
    kind: u8,
    code: u8,
    rest: [u8; 4],
    body: Seq<u8>,
    src: [u8; 16],
    dst: [u8; 16],
)
    ensures
        ({
            let m = message_v6(kind, code, rest, body, src, dst);
            parsed(m, pseudo_v6(src, dst, m.len()) + m) == Ok::<
                (IcmpMessage, Seq<u8>),
                WireError,
            >((IcmpMessage { kind, code, rest }, body))
        }),
{
    let bare = bare_message(kind, code, rest, body);
    let m = message_v6(kind, code, rest, body, src, dst);
    let p = pseudo_v6(src, dst, bare.len());
    assert(p.len() == 38);
    checksum_field_verifies(p + bare, 40);
    assert(splice(p + bare, 40, bytes16(internet_checksum(p + bare))) =~= p + m);
    assert(m.len() == bare.len());
    assert(m.skip(8) =~= body);
    assert(message_fields(m).rest =~= rest);
}

/// How long an ICMPv4 message is.
pub proof fn message_v4_length(kind: u8, code: u8, rest: [u8; 4], body: Seq<u8>)
    ensures
        message_v4(kind, code, rest, body).len() == HEADER_LEN + body.len(),
{
}

/// How long an ICMPv6 message is.
pub proof fn message_v6_length(
    kind: u8,
    code: u8,
    rest: [u8; 4],
    body: Seq<u8>,
    src: [u8; 16],
    dst: [u8; 16],
)
    ensures
        message_v6(kind, code, rest, body, src, dst).len() == HEADER_LEN + body.len(),
{
}

/// The start of an emitted segment, as an error quotes it, tells its ports and
/// its sequence number.
pub proof fn quoted_segment_is_recognized(
    e: EmitModel,
    src: IpAddr,
    dst: IpAddr,
    payload: Seq<u8>,
    k: int,
)
    requires
        e.header_len() <= MAX_HEADER_LEN,
        e.flags.0 < 64,
        8 <= k <= e.segment(src, dst, payload).len(),
    ensures
        quoted_fields(e.segment(src, dst, payload).take(k)) == Ok::<QuotedTcp, WireError>(
            QuotedTcp { src_port: e.src_port, dst_port: e.dst_port, seq: e.seq },
        ),
{
    lemma_segment_fields(e, src, dst, payload);
    let s = e.segment(src, dst, payload);
    let t = s.take(k);
    assert(be16(t, 0) == be16(s, 0) && be16(t, 2) == be16(s, 2) && be32(t, 4) == be32(s, 4));
}

} // verus!
