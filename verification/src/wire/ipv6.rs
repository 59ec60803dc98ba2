//! IPv6 header parsing and emission (RFC 8200).
use super::ipv4::result_view;
use super::{be16, be32, hi8, lo8, read_u16, read_u32, splice, write_bytes, WireError};
use crate::types::bytes_equal;
use vstd::prelude::*;
use vstd::std_specs::cmp::PartialEqSpecImpl;

verus! {

/// Fixed IPv6 header length.
pub const HEADER_LEN: usize = 40;

/// Minimum IPv6 link MTU (RFC 8200 section 5).
pub const MIN_MTU: u16 = 1280;

/// Next header: hop-by-hop options.
pub const NEXT_HOP_BY_HOP: u8 = 0;

/// Next header: routing header.
pub const NEXT_ROUTING: u8 = 43;

/// Next header: fragment header.
pub const NEXT_FRAGMENT: u8 = 44;

/// Next header: destination options.
pub const NEXT_DEST_OPTS: u8 = 60;

/// Next header: nothing follows.
pub const NEXT_NO_NEXT: u8 = 59;

/// Bound on extension headers walked before declaring the chain hostile.
pub const MAX_EXT_HEADERS: usize = 8;

/// Fragment-header information (RFC 8200 section 4.5).
#[derive(Debug, Clone, Copy, PartialEq, Eq, Structural)]
pub struct FragInfo {
    /// Identification value (reassembly key component).
    pub ident: u32,
    /// Fragment offset in bytes (already multiplied by 8).
    pub offset: u16,
    /// More-fragments flag.
    pub more: bool,
    /// Next-header of the *reassembled* payload (meaningful on offset 0).
    pub next: u8,
}

/// A parsed IPv6 datagram's addressing and payload identification.
#[derive(Debug, Clone, Copy, Eq)]
pub struct Ipv6Header {
    /// Source address.
    pub src: [u8; 16],
    /// Destination address.
    pub dst: [u8; 16],
    /// Hop limit as received.
    pub hop_limit: u8,
    /// Upper-layer protocol of the returned payload. For a fragment this is
    /// the protocol named by the fragment header; use [`FragInfo::next`] for
    /// the reassembled datagram's protocol.
    pub proto: u8,
    /// Present when a fragment header was found; the returned payload is
    /// then the fragment data, not a complete upper-layer payload.
    pub frag: Option<FragInfo>,
}

impl PartialEqSpecImpl for Ipv6Header {
    open spec fn obeys_eq_spec() -> bool {
        true
    }

    open spec fn eq_spec(&self, other: &Ipv6Header) -> bool {
        *self == *other
    }
}

impl PartialEq for Ipv6Header {
    fn eq(&self, other: &Ipv6Header) -> (r: bool) {
        bytes_equal(&self.src, &other.src) && bytes_equal(&self.dst, &other.dst) && self.hop_limit
            == other.hop_limit && self.proto == other.proto && self.frag == other.frag
    }
}

/// Where a walk over extension headers ends.
#[derive(Debug, Clone, Copy, PartialEq, Eq, Structural)]
pub enum Walked {
    /// An upper-layer protocol starts at `at`.
    Upper {
        /// Its protocol number.
        proto: u8,
        /// Its offset.
        at: usize,
    },
    /// A fragment header starts at `at`.
    Fragment {
        /// Its offset.
        at: usize,
    },
    /// Nothing follows.
    NoNext,
    /// The chain is malformed, too long, or asks to be routed on.
    Fault,
}

/// Walk the extension headers of `d` from offset `at`, whose type is `next`;
/// at most `fuel` headers are looked at.
///
/// Hop-by-hop, routing and destination-options headers are skipped by their
/// length, which must lie inside `d`. A routing header that still has segments
/// left is refused (RFC 8200 section 4.4, RFC 5095).
pub open spec fn walked(d: Seq<u8>, next: u8, at: int, fuel: nat) -> Walked
    decreases fuel,
{
    if fuel == 0 {
        Walked::Fault
    } else if next == NEXT_HOP_BY_HOP || next == NEXT_ROUTING || next == NEXT_DEST_OPTS {
        if at + 2 > d.len() || at + 8 + d[at + 1] * 8 > d.len() {
            Walked::Fault
        } else if next == NEXT_ROUTING && d[at + 3] != 0 {
            Walked::Fault
        } else {
            walked(d, d[at], at + 8 + d[at + 1] * 8, (fuel - 1) as nat)
        }
    } else if next == NEXT_FRAGMENT {
        if at + 8 > d.len() {
            Walked::Fault
        } else {
            Walked::Fragment { at: at as usize }
        }
    } else if next == NEXT_NO_NEXT {
        Walked::NoNext
    } else {
        Walked::Upper { proto: next, at: at as usize }
    }
}

/// The fields of the fragment header at offset `at`.
pub open spec fn fragment_fields(d: Seq<u8>, at: int) -> FragInfo {
    let off = be16(d, at + 2);
    FragInfo {
        ident: be32(d, at + 4),
        offset: (off / 8 * 8) as u16,
        more: off % 2 == 1,
        next: d[at],
    }
}

/// The sixteen bytes at offset `at`.
pub open spec fn octets16(b: Seq<u8>, at: int) -> [u8; 16] {
    [
        b[at],
        b[at + 1],
        b[at + 2],
        b[at + 3],
        b[at + 4],
        b[at + 5],
        b[at + 6],
        b[at + 7],
        b[at + 8],
        b[at + 9],
        b[at + 10],
        b[at + 11],
        b[at + 12],
        b[at + 13],
        b[at + 14],
        b[at + 15],
    ]
}

/// The header and payload of a whole datagram, or why it is dropped.
pub open spec fn parsed(data: Seq<u8>) -> Result<(Ipv6Header, Seq<u8>), WireError> {
    if data.len() < HEADER_LEN {
        Err(WireError::Truncated)
    } else if data[0] / 16 != 6 {
        Err(WireError::BadVersion)
    } else if HEADER_LEN + be16(data, 4) > data.len() {
        Err(WireError::Truncated)
    } else {
        let d = data.take(HEADER_LEN + be16(data, 4));
        let base = Ipv6Header {
            src: octets16(data, 8),
            dst: octets16(data, 24),
            hop_limit: data[7],
            proto: NEXT_NO_NEXT,
            frag: None,
        };
        match walked(d, data[6], HEADER_LEN as int, MAX_EXT_HEADERS as nat) {
            Walked::Fault => Err(WireError::BadExtensionHeader),
            Walked::NoNext => Ok((base, Seq::empty())),
            Walked::Upper { proto, at } => Ok((Ipv6Header { proto, ..base }, d.skip(at as int))),
            Walked::Fragment { at } => Ok(
                (
                    Ipv6Header {
                        proto: d[at as int],
                        frag: Some(fragment_fields(d, at as int)),
                        ..base
                    },
                    d.skip(at + 8),
                ),
            ),
        }
    }
}

/// The upper-layer protocol and its bytes behind any extension headers that
/// lead a payload of type `proto`. A nested fragment header is refused.
pub open spec fn payload_walked(proto: u8, payload: Seq<u8>) -> Result<(u8, Seq<u8>), WireError> {
    match walked(payload, proto, 0, MAX_EXT_HEADERS as nat) {
        Walked::Fault => Err(WireError::BadExtensionHeader),
        Walked::Fragment { .. } => Err(WireError::BadExtensionHeader),
        Walked::NoNext => Ok((NEXT_NO_NEXT, Seq::empty())),
        Walked::Upper { proto, at } => Ok((proto, payload.skip(at as int))),
    }
}

/// Source, destination, next header and the rest of a datagram quoted by an
/// ICMPv6 error.
pub open spec fn quoted(data: Seq<u8>) -> Result<([u8; 16], [u8; 16], u8, Seq<u8>), WireError> {
    if data.len() < HEADER_LEN {
        Err(WireError::Truncated)
    } else if data[0] / 16 != 6 {
        Err(WireError::BadVersion)
    } else {
        Ok((octets16(data, 8), octets16(data, 24), data[6], data.skip(HEADER_LEN as int)))
    }
}

/// The header bytes that [`emit`] writes.
pub open spec fn header(
    src: [u8; 16],
    dst: [u8; 16],
    next: u8,
    hop_limit: u8,
    payload_len: int,
) -> Seq<u8> {
    seq![
        0x60u8,
        0,
        0,
        0,
        hi8(payload_len as u16),
        lo8(payload_len as u16),
        next,
        hop_limit,
    ] + src@ + dst@
}

fn read_octets16(b: &[u8], at: usize) -> (r: [u8; 16])
    requires
        at + 16 <= b@.len(),
    ensures
        r == octets16(b@, at as int),
{
    let r: [u8; 16] = [
        b[at],
        b[at + 1],
        b[at + 2],
        b[at + 3],
        b[at + 4],
        b[at + 5],
        b[at + 6],
        b[at + 7],
        b[at + 8],
        b[at + 9],
        b[at + 10],
        b[at + 11],
        b[at + 12],
        b[at + 13],
        b[at + 14],
        b[at + 15],
    ];
    r
}

proof fn lemma_walked_bounds(d: Seq<u8>, next: u8, at: int, fuel: nat)
    requires
        0 <= at <= d.len() <= usize::MAX,
    ensures
        match walked(d, next, at, fuel) {
            Walked::Upper { at: a, .. } => at <= a <= d.len(),
            Walked::Fragment { at: a } => at <= a && a + 8 <= d.len(),
            _ => true,
        },
    decreases fuel,
{
    if fuel > 0 && (next == NEXT_HOP_BY_HOP || next == NEXT_ROUTING || next == NEXT_DEST_OPTS) {
        if !(at + 2 > d.len() || at + 8 + d[at + 1] * 8 > d.len()) {
            lemma_walked_bounds(d, d[at], at + 8 + d[at + 1] * 8, (fuel - 1) as nat);
        }
    }
}

/// Walk the extension headers of `data[..end]` from offset `at`.
fn walk(data: &[u8], end: usize, first: u8, start: usize) -> (r: Walked)
    requires
        start <= end <= data@.len(),
    ensures
        r == walked(data@.take(end as int), first, start as int, MAX_EXT_HEADERS as nat),
{
    let ghost d = data@.take(end as int);
    let n: usize = data.len();
    let mut next: u8 = first;
    let mut at: usize = start;
    let mut fuel: usize = MAX_EXT_HEADERS;
    while fuel > 0
        invariant
            at <= end <= data@.len(),
            n == data@.len(),
            d == data@.take(end as int),
            walked(d, first, start as int, MAX_EXT_HEADERS as nat) == walked(
                d,
                next,
                at as int,
                fuel as nat,
            ),
        decreases fuel,
    {
        if next == NEXT_HOP_BY_HOP || next == NEXT_ROUTING || next == NEXT_DEST_OPTS {
            let room: usize = end - at;
            if room < 2 {
                return Walked::Fault;
            }
            let ext_len: usize = 8 + data[at + 1] as usize * 8;
            if ext_len > room {
                return Walked::Fault;
            }
            if next == NEXT_ROUTING && data[at + 3] != 0 {
                return Walked::Fault;
            }
            next = data[at];
            at = at + ext_len;
        } else if next == NEXT_FRAGMENT {
            if end - at < 8 {
                return Walked::Fault;
            }
            return Walked::Fragment { at };
        } else if next == NEXT_NO_NEXT {
            return Walked::NoNext;
        } else {
            return Walked::Upper { proto: next, at };
        }
        fuel -= 1;
    }
    Walked::Fault
}

/// Parse an IPv6 datagram: fixed header plus extension-header walk.
///
/// Hop-by-hop, routing and destination-options headers are length-validated
/// and skipped without interpreting their contents: this host is not a router
/// and requests no options. A routing header with segments left is refused. A
/// fragment header terminates the walk and is reported via `frag`.
pub fn parse(data: &[u8]) -> (r: Result<(Ipv6Header, &[u8]), WireError>)
    ensures
        result_view(r) == parsed(data@),
        r matches Ok((_, p)) ==> p@.len() <= u16::MAX,
{
    if data.len() < HEADER_LEN {
        return Err(WireError::Truncated);
    }
    if data[0] / 16 != 6 {
        return Err(WireError::BadVersion);
    }
    let payload_len: usize = read_u16(data, 4) as usize;
    if payload_len > data.len() - HEADER_LEN {
        return Err(WireError::Truncated);
    }
    let end: usize = HEADER_LEN + payload_len;
    let ghost d = data@.take(end as int);
    let mut header = Ipv6Header {
        src: read_octets16(data, 8),
        dst: read_octets16(data, 24),
        hop_limit: data[7],
        proto: NEXT_NO_NEXT,
        frag: None,
    };
    proof {
        lemma_walked_bounds(d, data@[6], HEADER_LEN as int, MAX_EXT_HEADERS as nat);
    }
    match walk(data, end, data[6], HEADER_LEN) {
        Walked::Fault => Err(WireError::BadExtensionHeader),
        Walked::NoNext => {
            assert(data@.subrange(end as int, end as int) =~= Seq::<u8>::empty());
            Ok((header, &data[end..end]))
        },
        Walked::Upper { proto, at } => {
            header.proto = proto;
            assert(data@.subrange(at as int, end as int) =~= d.skip(at as int));
            Ok((header, &data[at..end]))
        },
        Walked::Fragment { at } => {
            let off: u16 = read_u16(data, at + 2);
            header.frag = Some(
                FragInfo {
                    ident: read_u32(data, at + 4),
                    offset: off / 8 * 8,
                    more: off % 2 == 1,
                    next: data[at],
                },
            );
            header.proto = data[at];
            assert(data@.subrange(at + 8, end as int) =~= d.skip(at + 8));
            Ok((header, &data[at + 8..end]))
        },
    }
}

/// Walk any extension headers that lead a (possibly reassembled) payload of
/// type `proto`; returns the upper-layer protocol and its bytes.
pub fn walk_payload(proto: u8, payload: &[u8]) -> (r: Result<(u8, &[u8]), WireError>)
    ensures
        result_view(r) == payload_walked(proto, payload@),
        r matches Ok((_, p)) ==> p@.len() <= payload@.len(),
{
    let n: usize = payload.len();
    assert(payload@.take(n as int) =~= payload@);
    proof {
        lemma_walked_bounds(payload@, proto, 0, MAX_EXT_HEADERS as nat);
    }
    match walk(payload, n, proto, 0) {
        Walked::Fault => Err(WireError::BadExtensionHeader),
        Walked::Fragment { .. } => Err(WireError::BadExtensionHeader),
        Walked::NoNext => {
            assert(payload@.subrange(n as int, n as int) =~= Seq::<u8>::empty());
            Ok((NEXT_NO_NEXT, &payload[n..n]))
        },
        Walked::Upper { proto, at } => {
            assert(payload@.subrange(at as int, n as int) =~= payload@.skip(at as int));
            Ok((proto, &payload[at..n]))
        },
    }
}

/// Quoted-datagram fields: `(src, dst, next_header, rest)`.
pub type QuoteFields<'a> = ([u8; 16], [u8; 16], u8, &'a [u8]);

/// Parse the (possibly truncated) IPv6 datagram quoted inside an ICMPv6
/// error (RFC 4443 section 3: as much of the offending packet as fits). Only
/// the fixed header is read; if extension headers precede the transport header
/// the caller will fail to match a connection and drop the message.
pub fn parse_quote(data: &[u8]) -> (r: Result<QuoteFields<'_>, WireError>)
    ensures
        match r {
            Ok((src, dst, next, rest)) => quoted(data@) == Ok::<
                ([u8; 16], [u8; 16], u8, Seq<u8>),
                WireError,
            >((src, dst, next, rest@)),
            Err(e) => quoted(data@) == Err::<([u8; 16], [u8; 16], u8, Seq<u8>), WireError>(e),
        },
{
    if data.len() < HEADER_LEN {
        return Err(WireError::Truncated);
    }
    if data[0] / 16 != 6 {
        return Err(WireError::BadVersion);
    }
    assert(data@.subrange(HEADER_LEN as int, data@.len() as int) =~= data@.skip(
        HEADER_LEN as int,
    ));
    Ok(
        (
            read_octets16(data, 8),
            read_octets16(data, 24),
            data[6],
            &data[HEADER_LEN..data.len()],
        ),
    )
}

/// Write a 40-byte IPv6 header for `payload_len` bytes of `next` protocol
/// into `buf[..40]`; returns [`HEADER_LEN`]. No extension headers are ever
/// emitted by this stack.
pub fn emit(
    src: &[u8; 16],
    dst: &[u8; 16],
    next: u8,
    hop_limit: u8,
    payload_len: usize,
    buf: &mut [u8],
) -> (r: usize)
    requires
        payload_len <= u16::MAX,
        old(buf)@.len() >= HEADER_LEN,
    ensures
        r == HEADER_LEN,
        final(buf)@ == splice(
            old(buf)@,
            0,
            header(*src, *dst, next, hop_limit, payload_len as int),
        ),
{
    let ghost start = buf@;
    let len: u16 = payload_len as u16;
    let fixed: [u8; 8] = [0x60, 0, 0, 0, hi8(len), lo8(len), next, hop_limit];
    write_bytes(buf, 0, &fixed);
    write_bytes(buf, 8, src);
    write_bytes(buf, 24, dst);
    assert(buf@ =~= splice(start, 0, header(*src, *dst, next, hop_limit, payload_len as int)));
    HEADER_LEN
}

/// Parsing an emitted header gives back its fields, and the payload behind
/// it, for every upper-layer protocol.
pub proof fn emit_parse_round_trip(
    src: [u8; 16],
    dst: [u8; 16],
    next: u8,
    hop_limit: u8,
    payload: Seq<u8>,
)
    requires
        payload.len() <= u16::MAX,
        next != NEXT_HOP_BY_HOP,
        next != NEXT_ROUTING,
        next != NEXT_DEST_OPTS,
        next != NEXT_FRAGMENT,
        next != NEXT_NO_NEXT,
    ensures
        parsed(header(src, dst, next, hop_limit, payload.len() as int) + payload) == Ok::<
            (Ipv6Header, Seq<u8>),
            WireError,
        >((Ipv6Header { src, dst, hop_limit, proto: next, frag: None }, payload)),
        be16(header(src, dst, next, hop_limit, payload.len() as int) + payload, 4)
            == payload.len(),
{
    let h = header(src, dst, next, hop_limit, payload.len() as int);
    let data = h + payload;
    assert(data[0] == 0x60);
    assert(be16(data, 4) == payload.len());
    assert(data.take((HEADER_LEN + payload.len()) as int) =~= data);
    assert(data.skip(40) =~= payload);
    assert(octets16(data, 8) =~= src);
    assert(octets16(data, 24) =~= dst);
    assert(walked(data, next, 40, MAX_EXT_HEADERS as nat) == Walked::Upper { proto: next, at: 40 });
}

/// An upper-layer payload is passed through unchanged.
pub proof fn upper_layer_payload_is_untouched(proto: u8, payload: Seq<u8>)
    requires
        proto != NEXT_HOP_BY_HOP,
        proto != NEXT_ROUTING,
        proto != NEXT_DEST_OPTS,
        proto != NEXT_FRAGMENT,
        proto != NEXT_NO_NEXT,
    ensures
        payload_walked(proto, payload) == Ok::<(u8, Seq<u8>), WireError>((proto, payload)),
{
    assert(payload.skip(0) =~= payload);
}

/// The start of an emitted datagram, as an ICMPv6 error quotes it, gives back
/// its ends, its next header, and what is quoted of its payload.
pub proof fn quoted_start_gives_the_ends_back(
    src: [u8; 16],
    dst: [u8; 16],
    next: u8,
    hop_limit: u8,
    payload: Seq<u8>,
    k: int,
)
    requires
        40 <= k <= 40 + payload.len(),
    ensures
        quoted((header(src, dst, next, hop_limit, payload.len() as int) + payload).take(k)) == Ok::<
            ([u8; 16], [u8; 16], u8, Seq<u8>),
            WireError,
        >((src, dst, next, payload.take(k - 40))),
{
    let data = (header(src, dst, next, hop_limit, payload.len() as int) + payload).take(k);
    assert(data[0] == 0x60);
    assert(octets16(data, 8) =~= src);
    assert(octets16(data, 24) =~= dst);
    assert(data.skip(40) =~= payload.take(k - 40));
}

/// Where the fields of a header stand (RFC 8200 section 3).
pub proof fn header_layout(
    src: [u8; 16],
    dst: [u8; 16],
    next: u8,
    hop_limit: u8,
    n: int,
    i: int,
)
    requires
        0 <= n <= 65535,
        0 <= i < 16,
    ensures
        ({
            let h = header(src, dst, next, hop_limit, n);
            &&& h.len() == 40
            &&& h[0] == 0x60
            &&& h[4] * 256 + h[5] == n
            &&& h[6] == next
            &&& h[7] == hop_limit
            &&& h[8 + i] == src[i]
            &&& h[24 + i] == dst[i]
        }),
{
}

/// An extension header is skipped by its length, in units of eight bytes not
/// counting the first, and the one that it names comes next.
pub proof fn extension_headers_are_skipped(kind: u8, ext: Seq<u8>, body: Seq<u8>)
    requires
        kind == 0 || kind == 60 || (kind == 43 && ext[3] == 0),
        ext.len() >= 8,
        ext.len() == 8 + 8 * ext[1],
        ext[0] != 0 && ext[0] != 43 && ext[0] != 60 && ext[0] != 44 && ext[0] != 59,
    ensures
        payload_walked(kind, ext + body) == Ok::<(u8, Seq<u8>), WireError>((ext[0], body)),
{
    let d = ext + body;
    assert(d[0] == ext[0] && d[1] == ext[1] && d[3] == ext[3]);
    reveal_with_fuel(walked, 3);
    assert(d.skip(ext.len() as int) =~= body);
}

/// A routing header that has segments left is refused, and so is a header that
/// is longer than what is there.
pub proof fn bad_extension_headers_are_refused(kind: u8, d: Seq<u8>)
    requires
        kind == 0 || kind == 60 || kind == 43,
        d.len() >= 8,
        (kind == 43 && d[3] != 0) || 8 + 8 * d[1] > d.len(),
    ensures
        payload_walked(kind, d) == Err::<(u8, Seq<u8>), WireError>(WireError::BadExtensionHeader),
{
    reveal_with_fuel(walked, 2);
}

/// A fragment header tells what it leads: the protocol, the offset in units of
/// eight bytes, whether more follows, and the identification.
pub proof fn fragment_header_layout(d: Seq<u8>, at: int)
    requires
        0 <= at,
        at + 8 <= d.len(),
    ensures
        ({
            let f = fragment_fields(d, at);
            &&& f.next == d[at]
            &&& f.offset == (d[at + 2] * 256 + d[at + 3]) / 8 * 8
            &&& f.more == (d[at + 3] % 2 == 1)
            &&& f.ident == d[at + 4] * 0x100_0000 + d[at + 5] * 0x1_0000 + d[at + 6] * 0x100 + d[at
                + 7]
        }),
{
}

/// What is accepted is sound: an IPv6 header, in a datagram no shorter than it
/// says.
pub proof fn accepted_datagrams_are_sound(data: Seq<u8>)
    ensures
        parsed(data) matches Ok((h, payload)) ==> {
            &&& data.len() >= 40
            &&& data[0] / 16 == 6
            &&& 40 + data[4] * 256 + data[5] <= data.len()
            &&& h.hop_limit == data[7]
        },
{
}

} // verus!
