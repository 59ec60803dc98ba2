//! IPv4 header parsing and emission (RFC 791).
use super::checksum::{self, checksum_field_verifies, internet_checksum};
use super::{be16, bytes16, hi8, lo8, read_u16, splice, write_bytes, WireError};
use crate::types::bytes_equal;
use vstd::prelude::*;
use vstd::std_specs::cmp::PartialEqSpecImpl;

verus! {

/// Minimum (and, on egress, only) IPv4 header length.
pub const HEADER_LEN: usize = 20;

/// A parsed IPv4 header.
#[derive(Debug, Clone, Copy, Eq)]
pub struct Ipv4Header {
    /// Source address.
    pub src: [u8; 4],
    /// Destination address.
    pub dst: [u8; 4],
    /// Upper-layer protocol number.
    pub proto: u8,
    /// Time to live as received.
    pub ttl: u8,
    /// Identification field (reassembly key component).
    pub ident: u16,
    /// Don't-fragment flag.
    pub dont_frag: bool,
    /// More-fragments flag.
    pub more_frags: bool,
    /// Fragment offset in bytes (already multiplied by 8).
    pub frag_offset: u16,
    /// Header length in bytes (>= 20 when options are present).
    pub header_len: u8,
    /// Total datagram length from the header.
    pub total_len: u16,
}

impl PartialEqSpecImpl for Ipv4Header {
    open spec fn obeys_eq_spec() -> bool {
        true
    }

    open spec fn eq_spec(&self, other: &Ipv4Header) -> bool {
        *self == *other
    }
}

impl PartialEq for Ipv4Header {
    fn eq(&self, other: &Ipv4Header) -> (r: bool) {
        bytes_equal(&self.src, &other.src) && bytes_equal(&self.dst, &other.dst) && self.proto
            == other.proto && self.ttl == other.ttl && self.ident == other.ident && self.dont_frag
            == other.dont_frag && self.more_frags == other.more_frags && self.frag_offset
            == other.frag_offset && self.header_len == other.header_len && self.total_len
            == other.total_len
    }
}

/// Header length that the first byte claims.
pub open spec fn claimed_header_len(data: Seq<u8>) -> int {
    data[0] % 16 * 4
}

/// What is wrong with the header of `data`, if anything: in this order, too
/// short, another version, an impossible header length, a bad checksum.
pub open spec fn header_fault(data: Seq<u8>) -> Option<WireError> {
    if data.len() < HEADER_LEN {
        Some(WireError::Truncated)
    } else if data[0] / 16 != 4 {
        Some(WireError::BadVersion)
    } else if claimed_header_len(data) < HEADER_LEN || claimed_header_len(data) > data.len() {
        Some(WireError::BadHeaderLen)
    } else if internet_checksum(data.take(claimed_header_len(data))) != 0 {
        Some(WireError::BadChecksum)
    } else {
        None
    }
}

/// The four bytes at offset `at`.
pub open spec fn octets4(b: Seq<u8>, at: int) -> [u8; 4] {
    [b[at], b[at + 1], b[at + 2], b[at + 3]]
}

/// The header fields of `data` (RFC 791 section 3.1).
pub open spec fn header_fields(data: Seq<u8>) -> Ipv4Header {
    let ff = be16(data, 6);
    Ipv4Header {
        src: octets4(data, 12),
        dst: octets4(data, 16),
        proto: data[9],
        ttl: data[8],
        ident: be16(data, 4),
        dont_frag: ff / 0x4000 % 2 == 1,
        more_frags: ff / 0x2000 % 2 == 1,
        frag_offset: (ff % 0x2000 * 8) as u16,
        header_len: claimed_header_len(data) as u8,
        total_len: be16(data, 2),
    }
}

/// The header and payload of a whole datagram, or why it is dropped. Bytes
/// behind the total length are link-layer padding.
pub open spec fn parsed(data: Seq<u8>) -> Result<(Ipv4Header, Seq<u8>), WireError> {
    match header_fault(data) {
        Some(e) => Err(e),
        None => {
            let h = header_fields(data);
            if h.total_len < h.header_len {
                Err(WireError::BadLength)
            } else if h.total_len > data.len() {
                Err(WireError::Truncated)
            } else {
                Ok((h, data.subrange(h.header_len as int, h.total_len as int)))
            }
        },
    }
}

/// The header and the rest of a datagram quoted by an ICMP error, which need
/// not be whole.
pub open spec fn quoted(data: Seq<u8>) -> Result<(Ipv4Header, Seq<u8>), WireError> {
    match header_fault(data) {
        Some(e) => Err(e),
        None => {
            let h = header_fields(data);
            Ok((h, data.skip(h.header_len as int)))
        },
    }
}

/// A parser's result, its payload taken as a byte string.
pub open spec fn result_view<H>(r: Result<(H, &[u8]), WireError>) -> Result<
    (H, Seq<u8>),
    WireError,
> {
    match r {
        Ok((h, p)) => Ok((h, p@)),
        Err(e) => Err(e),
    }
}

impl Ipv4Header {
    /// True if this datagram is a fragment (of any position).
    pub fn is_fragment(&self) -> (r: bool)
        ensures
            r == (self.more_frags || self.frag_offset != 0),
    {
        self.more_frags || self.frag_offset != 0
    }
}

/// Parse and validate an IPv4 datagram; returns the header and the payload.
///
/// Validates version, header length, total length and the header checksum
/// (RFC 1122 section 3.2.1.2: a datagram with a bad checksum MUST be
/// discarded). IP options are length-validated and skipped: this host never
/// acts on source routes.
pub fn parse(data: &[u8]) -> (r: Result<(Ipv4Header, &[u8]), WireError>)
    ensures
        result_view(r) == parsed(data@),
{
    match parse_header(data) {
        Err(e) => Err(e),
        Ok(header) => {
            let hlen: usize = header.header_len as usize;
            let total: usize = header.total_len as usize;
            if total < hlen {
                return Err(WireError::BadLength);
            }
            if total > data.len() {
                return Err(WireError::Truncated);
            }
            Ok((header, &data[hlen..total]))
        },
    }
}

/// Parse an IPv4 header from an ICMP error quote, where the quoted datagram
/// is intentionally truncated (RFC 792: header + first 8 payload bytes).
/// The header checksum is still verified; `total_len` is not compared with
/// the buffer. Returns the header and whatever quoted payload is present.
pub fn parse_quote(data: &[u8]) -> (r: Result<(Ipv4Header, &[u8]), WireError>)
    ensures
        result_view(r) == quoted(data@),
{
    match parse_header(data) {
        Err(e) => Err(e),
        Ok(header) => {
            let hlen: usize = header.header_len as usize;
            assert(data@.subrange(hlen as int, data@.len() as int) =~= data@.skip(hlen as int));
            Ok((header, &data[hlen..data.len()]))
        },
    }
}

fn parse_header(data: &[u8]) -> (r: Result<Ipv4Header, WireError>)
    ensures
        match r {
            Ok(h) => header_fault(data@) is None && h == header_fields(data@),
            Err(e) => header_fault(data@) == Some(e),
        },
{
    if data.len() < HEADER_LEN {
        return Err(WireError::Truncated);
    }
    if data[0] / 16 != 4 {
        return Err(WireError::BadVersion);
    }
    let hlen: usize = (data[0] % 16) as usize * 4;
    if hlen < HEADER_LEN || hlen > data.len() {
        return Err(WireError::BadHeaderLen);
    }
    assert(data@.subrange(0, hlen as int) =~= data@.take(hlen as int));
    if checksum::over(&data[0..hlen]) != 0 {
        return Err(WireError::BadChecksum);
    }
    let ff: u16 = read_u16(data, 6);
    Ok(
        Ipv4Header {
            src: [data[12], data[13], data[14], data[15]],
            dst: [data[16], data[17], data[18], data[19]],
            proto: data[9],
            ttl: data[8],
            ident: read_u16(data, 4),
            dont_frag: ff / 0x4000 % 2 == 1,
            more_frags: ff / 0x2000 % 2 == 1,
            frag_offset: ff % 0x2000 * 8,
            header_len: hlen as u8,
            total_len: read_u16(data, 2),
        },
    )
}

/// Fields for emitting an IPv4 header (always 20 bytes, no options).
#[derive(Debug, Clone, Copy)]
pub struct Ipv4Emit {
    /// Source address.
    pub src: [u8; 4],
    /// Destination address.
    pub dst: [u8; 4],
    /// Upper-layer protocol number.
    pub proto: u8,
    /// Time to live.
    pub ttl: u8,
    /// Identification field.
    pub ident: u16,
    /// Set the DF flag (used for path MTU discovery, RFC 1191 section 3).
    pub dont_frag: bool,
    /// Set the MF flag (emitting a non-final fragment).
    pub more_frags: bool,
    /// Fragment offset in bytes (must be a multiple of 8).
    pub frag_offset: u16,
}

impl Ipv4Emit {
    /// The flags and fragment-offset field.
    pub open spec fn flags_field(self) -> u16 {
        (self.frag_offset / 8 + if self.dont_frag {
            0x4000int
        } else {
            0
        } + if self.more_frags {
            0x2000int
        } else {
            0
        }) as u16
    }

    /// The header bytes with a zero checksum field.
    pub open spec fn bare_header(self, payload_len: int) -> Seq<u8> {
        let total = (HEADER_LEN + payload_len) as u16;
        let ff = self.flags_field();
        seq![
            0x45,
            0,
            hi8(total),
            lo8(total),
            hi8(self.ident),
            lo8(self.ident),
            hi8(ff),
            lo8(ff),
            self.ttl,
            self.proto,
            0,
            0,
            self.src[0],
            self.src[1],
            self.src[2],
            self.src[3],
            self.dst[0],
            self.dst[1],
            self.dst[2],
            self.dst[3],
        ]
    }

    /// The header bytes.
    pub open spec fn header(self, payload_len: int) -> Seq<u8> {
        let bare = self.bare_header(payload_len);
        splice(bare, 10, bytes16(internet_checksum(bare)))
    }

    /// Plain unfragmented datagram fields.
    pub fn datagram(
        src: [u8; 4],
        dst: [u8; 4],
        proto: u8,
        ttl: u8,
        ident: u16,
        df: bool,
    ) -> (r: Self)
        ensures
            r == (Ipv4Emit {
                src,
                dst,
                proto,
                ttl,
                ident,
                dont_frag: df,
                more_frags: false,
                frag_offset: 0,
            }),
    {
        Ipv4Emit {
            src,
            dst,
            proto,
            ttl,
            ident,
            dont_frag: df,
            more_frags: false,
            frag_offset: 0,
        }
    }

    /// Write the 20-byte header for a payload of `payload_len` bytes into
    /// `buf[..20]` and return [`HEADER_LEN`]. The caller writes the payload
    /// at `buf[20..]`.
    pub fn emit(&self, payload_len: usize, buf: &mut [u8]) -> (r: usize)
        requires
            self.frag_offset % 8 == 0,
            payload_len + HEADER_LEN <= u16::MAX,
            old(buf)@.len() >= HEADER_LEN,
        ensures
            r == HEADER_LEN,
            final(buf)@ == splice(old(buf)@, 0, self.header(payload_len as int)),
    {
        let total: u16 = (HEADER_LEN + payload_len) as u16;
        let mut ff: u16 = self.frag_offset / 8;
        if self.dont_frag {
            ff = ff + 0x4000;
        }
        if self.more_frags {
            ff = ff + 0x2000;
        }
        let mut header: [u8; 20] = [
            0x45,
            0,
            hi8(total),
            lo8(total),
            hi8(self.ident),
            lo8(self.ident),
            hi8(ff),
            lo8(ff),
            self.ttl,
            self.proto,
            0,
            0,
            self.src[0],
            self.src[1],
            self.src[2],
            self.src[3],
            self.dst[0],
            self.dst[1],
            self.dst[2],
            self.dst[3],
        ];
        assert(header@ =~= self.bare_header(payload_len as int));
        let cks: u16 = checksum::over(&header);
        header[10] = hi8(cks);
        header[11] = lo8(cks);
        assert(header@ =~= self.header(payload_len as int));
        write_bytes(buf, 0, &header);
        HEADER_LEN
    }
}

/// Parsing an emitted header gives back its fields, and the payload behind it.
pub proof fn emit_parse_round_trip(e: Ipv4Emit, payload: Seq<u8>)
    requires
        e.frag_offset % 8 == 0,
        payload.len() + HEADER_LEN <= u16::MAX,
    ensures
        parsed(e.header(payload.len() as int) + payload) == Ok::<(Ipv4Header, Seq<u8>), WireError>(
            (
                Ipv4Header {
                    src: e.src,
                    dst: e.dst,
                    proto: e.proto,
                    ttl: e.ttl,
                    ident: e.ident,
                    dont_frag: e.dont_frag,
                    more_frags: e.more_frags,
                    frag_offset: e.frag_offset,
                    header_len: 20,
                    total_len: (payload.len() + 20) as u16,
                },
                payload,
            ),
        ),
{
    let bare = e.bare_header(payload.len() as int);
    let header = e.header(payload.len() as int);
    let data = header + payload;
    checksum_field_verifies(bare, 10);
    assert(data.take(20) =~= header);
    let h = header_fields(data);
    assert(data[0] == 0x45);
    assert(h.src =~= e.src);
    assert(h.dst =~= e.dst);
    assert(be16(data, 6) == e.flags_field());
    assert(be16(data, 2) == payload.len() + 20);
    assert(be16(data, 4) == e.ident);
    assert(data.subrange(20, (payload.len() + 20) as int) =~= payload);
}

/// The start of an emitted datagram, as an ICMP error quotes it, gives back its
/// ends, its protocol, and what is quoted of its payload.
pub proof fn quoted_start_gives_the_ends_back(e: Ipv4Emit, payload: Seq<u8>, k: int)
    requires
        e.frag_offset % 8 == 0,
        payload.len() + HEADER_LEN <= u16::MAX,
        20 <= k <= 20 + payload.len(),
    ensures
        quoted((e.header(payload.len() as int) + payload).take(k)) matches Ok((h, rest)) && {
            &&& h.src == e.src
            &&& h.dst == e.dst
            &&& h.proto == e.proto
            &&& rest == payload.take(k - 20)
        },
{
    let bare = e.bare_header(payload.len() as int);
    let header = e.header(payload.len() as int);
    let data = (header + payload).take(k);
    checksum_field_verifies(bare, 10);
    assert(data.take(20) =~= header);
    let h = header_fields(data);
    assert(data[0] == 0x45);
    assert(h.src =~= e.src);
    assert(h.dst =~= e.dst);
    assert(data.skip(20) =~= payload.take(k - 20));
}

/// Where the fields of a header stand (RFC 791 section 3.1).
pub proof fn header_layout(e: Ipv4Emit, n: int)
    requires
        e.frag_offset % 8 == 0,
        0 <= n <= 65515,
    ensures
        ({
            let h = e.header(n);
            &&& h.len() == 20
            &&& h[0] == 0x45
            &&& h[2] * 256 + h[3] == 20 + n
            &&& h[4] * 256 + h[5] == e.ident
            &&& (h[6] * 256 + h[7]) % 0x2000 * 8 == e.frag_offset
            &&& (h[6] / 64 % 2 == 1) == e.dont_frag
            &&& (h[6] / 32 % 2 == 1) == e.more_frags
            &&& h[8] == e.ttl
            &&& h[9] == e.proto
            &&& h[12] == e.src[0] && h[13] == e.src[1] && h[14] == e.src[2] && h[15] == e.src[3]
            &&& h[16] == e.dst[0] && h[17] == e.dst[1] && h[18] == e.dst[2] && h[19] == e.dst[3]
            &&& internet_checksum(h) == 0
        }),
{
    let bare = e.bare_header(n);
    checksum_field_verifies(bare, 10);
}

/// What is accepted is sound: an IPv4 header of at least five words whose
/// checksum verifies, in a datagram no shorter than it says; the payload is what
/// stands between the header and that length.
pub proof fn accepted_datagrams_are_sound(data: Seq<u8>)
    ensures
        parsed(data) matches Ok((h, payload)) ==> {
            &&& data[0] / 16 == 4
            &&& h.header_len == data[0] % 16 * 4 && h.header_len >= 20
            &&& internet_checksum(data.take(h.header_len as int)) == 0
            &&& h.header_len <= h.total_len <= data.len()
            &&& h.total_len == data[2] * 256 + data[3]
            &&& payload == data.subrange(h.header_len as int, h.total_len as int)
            &&& h.proto == data[9] && h.ttl == data[8]
        },
{
}

} // verus!
