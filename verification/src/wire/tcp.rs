//! TCP segment parsing and emission (RFC 9293 section 3.1).
use super::checksum::{checksum_field_verifies, internet_checksum, pseudo_header, Checksum};
use super::{
    be16, be32, bytes16, bytes32, hi8, lemma_be16_at, lemma_be32_at, lemma_splice_append, lemma_splice_inside,
    lemma_splice_nothing, lo8, proto, read_u16, read_u32, splice, tail, write_bytes, write_u16,
    write_u32, WireError,
};
use crate::types::IpAddr;
use crate::util::BoundedVec;
use vstd::prelude::*;

verus! {

/// Minimum TCP header length.
pub const HEADER_LEN: usize = 20;

/// Maximum TCP header length (data offset 15).
pub const MAX_HEADER_LEN: usize = 60;

/// Maximum SACK blocks in one segment (RFC 2018 section 3: 40-byte option
/// space allows 4; 3 when other options are present).
pub const MAX_SACK_BLOCKS: usize = 4;

/// Option kind: end of the option list.
pub const OPT_END: u8 = 0;

/// Option kind: no operation.
pub const OPT_NOP: u8 = 1;

/// Option kind: maximum segment size.
pub const OPT_MSS: u8 = 2;

/// Option kind: window scale.
pub const OPT_WSCALE: u8 = 3;

/// Option kind: SACK permitted.
pub const OPT_SACK_PERMITTED: u8 = 4;

/// Option kind: SACK blocks.
pub const OPT_SACK: u8 = 5;

/// TCP flags (subset of the control bits; ECN bits are not used).
#[derive(Debug, Clone, Copy, PartialEq, Eq, Structural)]
pub struct TcpFlags(pub u8);

impl Default for TcpFlags {
    fn default() -> (r: Self)
        ensures
            r == TcpFlags(0),
    {
        TcpFlags(0)
    }
}

impl TcpFlags {
    /// FIN: sender is done sending.
    pub const FIN: u8 = 0x01;

    /// SYN: synchronize sequence numbers.
    pub const SYN: u8 = 0x02;

    /// RST: reset the connection.
    pub const RST: u8 = 0x04;

    /// PSH: push buffered data to the application.
    pub const PSH: u8 = 0x08;

    /// ACK: acknowledgment field significant.
    pub const ACK: u8 = 0x10;

    /// URG: urgent pointer significant (accepted, never sent; RFC 6093).
    pub const URG: u8 = 0x20;

    /// True if every flag in `other` is set in `self`.
    #[verifier::allow_in_spec]
    pub fn contains(self, other: TcpFlags) -> bool
        returns
            self.0 & other.0 == other.0,
    {
        self.0 & other.0 == other.0
    }

    /// Union of two flag sets.
    #[verifier::allow_in_spec]
    pub fn union(self, other: TcpFlags) -> TcpFlags
        returns
            TcpFlags(self.0 | other.0),
    {
        TcpFlags(self.0 | other.0)
    }

    /// SYN bit set.
    #[verifier::allow_in_spec]
    pub fn syn(self) -> bool
        returns
            self.contains(TcpFlags(0x02)),
    {
        self.contains(TcpFlags(Self::SYN))
    }

    /// ACK bit set.
    #[verifier::allow_in_spec]
    pub fn ack(self) -> bool
        returns
            self.contains(TcpFlags(0x10)),
    {
        self.contains(TcpFlags(Self::ACK))
    }

    /// RST bit set.
    #[verifier::allow_in_spec]
    pub fn rst(self) -> bool
        returns
            self.contains(TcpFlags(0x04)),
    {
        self.contains(TcpFlags(Self::RST))
    }

    /// FIN bit set.
    #[verifier::allow_in_spec]
    pub fn fin(self) -> bool
        returns
            self.contains(TcpFlags(0x01)),
    {
        self.contains(TcpFlags(Self::FIN))
    }

    /// PSH bit set.
    #[verifier::allow_in_spec]
    pub fn psh(self) -> bool
        returns
            self.contains(TcpFlags(0x08)),
    {
        self.contains(TcpFlags(Self::PSH))
    }
}

/// A union holds exactly the flags of its parts.
pub proof fn union_holds_both(a: TcpFlags, b: TcpFlags)
    ensures
        a.union(b).contains(a),
        a.union(b).contains(b),
        a.union(b).syn() == (a.syn() || b.syn()),
        a.union(b).ack() == (a.ack() || b.ack()),
        a.union(b).rst() == (a.rst() || b.rst()),
        a.union(b).fin() == (a.fin() || b.fin()),
        a.union(b).psh() == (a.psh() || b.psh()),
{
    let (x, y) = (a.0, b.0);
    assert((x | y) & x == x && (x | y) & y == y) by (bit_vector);
    assert(((x | y) & 0x02 == 0x02) == (x & 0x02 == 0x02 || y & 0x02 == 0x02)) by (bit_vector);
    assert(((x | y) & 0x10 == 0x10) == (x & 0x10 == 0x10 || y & 0x10 == 0x10)) by (bit_vector);
    assert(((x | y) & 0x04 == 0x04) == (x & 0x04 == 0x04 || y & 0x04 == 0x04)) by (bit_vector);
    assert(((x | y) & 0x01 == 0x01) == (x & 0x01 == 0x01 || y & 0x01 == 0x01)) by (bit_vector);
    assert(((x | y) & 0x08 == 0x08) == (x & 0x08 == 0x08 || y & 0x08 == 0x08)) by (bit_vector);
}

/// A parsed TCP header (fixed part).
#[derive(Debug, Clone, Copy, PartialEq, Eq, Structural)]
pub struct TcpHeader {
    /// Source port.
    pub src_port: u16,
    /// Destination port.
    pub dst_port: u16,
    /// Sequence number.
    pub seq: u32,
    /// Acknowledgment number (significant iff `flags.ack()`).
    pub ack: u32,
    /// Control flags.
    pub flags: TcpFlags,
    /// Window field, unscaled as received.
    pub window: u16,
    /// Header length in bytes.
    pub header_len: u8,
}

/// Model of a set of options.
#[verifier::ext_equal]
pub struct OptionsModel {
    /// Maximum segment size.
    pub mss: Option<u16>,
    /// Window scale shift.
    pub window_scale: Option<u8>,
    /// SACK permitted.
    pub sack_permitted: bool,
    /// SACK blocks.
    pub sack_blocks: Seq<(u32, u32)>,
}

impl OptionsModel {
    /// No options.
    pub open spec fn empty() -> OptionsModel {
        OptionsModel {
            mss: None,
            window_scale: None,
            sack_permitted: false,
            sack_blocks: Seq::empty(),
        }
    }
}

/// Parsed TCP options relevant to this stack; unknown options are skipped.
#[derive(Debug, Clone, Copy)]
pub struct TcpOptions {
    /// Maximum segment size (valid only on SYN; RFC 9293 section 3.7.1).
    pub mss: Option<u16>,
    /// Window scale shift (valid only on SYN; RFC 7323 section 2.2).
    pub window_scale: Option<u8>,
    /// SACK permitted (valid only on SYN; RFC 2018 section 2).
    pub sack_permitted: bool,
    /// SACK blocks `(left, right)` (RFC 2018 section 3).
    pub sack_blocks: BoundedVec<(u32, u32), MAX_SACK_BLOCKS>,
}

impl View for TcpOptions {
    type V = OptionsModel;

    open spec fn view(&self) -> OptionsModel {
        OptionsModel {
            mss: self.mss,
            window_scale: self.window_scale,
            sack_permitted: self.sack_permitted,
            sack_blocks: self.sack_blocks@,
        }
    }
}

impl Default for TcpOptions {
    fn default() -> (r: Self)
        ensures
            r.sack_blocks.wf(),
            r@ == OptionsModel::empty(),
    {
        TcpOptions {
            mss: None,
            window_scale: None,
            sack_permitted: false,
            sack_blocks: BoundedVec::new(),
        }
    }
}

/// The SACK blocks in an option body, eight bytes each.
pub open spec fn blocks_in(body: Seq<u8>) -> Seq<(u32, u32)> {
    Seq::new(body.len() / 8, |i: int| (be32(body, 8 * i), be32(body, 8 * i + 4)))
}

/// The first few elements, at most `n`.
pub open spec fn at_most<T>(s: Seq<T>, n: int) -> Seq<T> {
    if s.len() <= n {
        s
    } else {
        s.take(n)
    }
}

/// What one option of a known or unknown kind adds to the options read so
/// far. A known kind with another length than its own is malformed; window
/// scales above 14 count as 14 (RFC 7323 section 2.3); blocks in excess of
/// what fits are ignored; unknown kinds are skipped (RFC 1122 section
/// 4.2.2.5).
pub open spec fn option_applied(acc: OptionsModel, kind: u8, body: Seq<u8>) -> Result<
    OptionsModel,
    WireError,
> {
    if kind == OPT_MSS {
        if body.len() == 2 {
            Ok(OptionsModel { mss: Some(be16(body, 0)), ..acc })
        } else {
            Err(WireError::BadOption)
        }
    } else if kind == OPT_WSCALE {
        if body.len() == 1 {
            Ok(
                OptionsModel {
                    window_scale: Some(
                        if body[0] > 14 {
                            14
                        } else {
                            body[0]
                        },
                    ),
                    ..acc
                },
            )
        } else {
            Err(WireError::BadOption)
        }
    } else if kind == OPT_SACK_PERMITTED {
        if body.len() == 0 {
            Ok(OptionsModel { sack_permitted: true, ..acc })
        } else {
            Err(WireError::BadOption)
        }
    } else if kind == OPT_SACK {
        if body.len() % 8 == 0 {
            Ok(
                OptionsModel {
                    sack_blocks: at_most(
                        acc.sack_blocks + blocks_in(body),
                        MAX_SACK_BLOCKS as int,
                    ),
                    ..acc
                },
            )
        } else {
            Err(WireError::BadOption)
        }
    } else {
        Ok(acc)
    }
}

/// The options in a byte string, on top of those read so far. Every option
/// but END and NOP carries its length, which covers at least itself.
pub open spec fn options_parsed(opts: Seq<u8>, acc: OptionsModel) -> Result<OptionsModel, WireError>
    decreases opts.len(),
{
    if opts.len() == 0 || opts[0] == OPT_END {
        Ok(acc)
    } else if opts[0] == OPT_NOP {
        options_parsed(opts.skip(1), acc)
    } else if opts.len() < 2 || opts[1] < 2 || opts[1] > opts.len() {
        Err(WireError::BadOption)
    } else {
        match option_applied(acc, opts[0], opts.subrange(2, opts[1] as int)) {
            Err(e) => Err(e),
            Ok(next) => options_parsed(opts.skip(opts[1] as int), next),
        }
    }
}

/// What a TCP checksum covers: the pseudo-header, then the segment.
pub open spec fn covered(segment: Seq<u8>, src: IpAddr, dst: IpAddr) -> Seq<u8> {
    pseudo_header(src, dst, proto::TCP, (segment.len() % 0x1_0000_0000) as u32) + segment
}

/// The fixed header fields of a segment.
pub open spec fn header_fields(data: Seq<u8>) -> TcpHeader {
    TcpHeader {
        src_port: be16(data, 0),
        dst_port: be16(data, 2),
        seq: be32(data, 4),
        ack: be32(data, 8),
        flags: TcpFlags(data[13] % 64),
        window: be16(data, 14),
        header_len: (data[12] / 16 * 4) as u8,
    }
}

/// Header, options and payload of a segment between two addresses, or why it
/// is dropped.
pub open spec fn parsed(data: Seq<u8>, src: IpAddr, dst: IpAddr) -> Result<
    (TcpHeader, OptionsModel, Seq<u8>),
    WireError,
> {
    if data.len() < HEADER_LEN {
        Err(WireError::Truncated)
    } else {
        let h = header_fields(data);
        if h.header_len < HEADER_LEN || h.header_len > data.len() {
            Err(WireError::BadHeaderLen)
        } else if internet_checksum(covered(data, src, dst)) != 0 {
            Err(WireError::BadChecksum)
        } else {
            match options_parsed(
                data.subrange(HEADER_LEN as int, h.header_len as int),
                OptionsModel::empty(),
            ) {
                Err(e) => Err(e),
                Ok(options) => Ok((h, options, data.skip(h.header_len as int))),
            }
        }
    }
}

/// Parse and validate a TCP segment carried between `src_ip` and `dst_ip`;
/// the checksum (with pseudo-header) is verified before anything is used
/// (RFC 9293 section 3.1: segments with bad checksums MUST be discarded).
pub fn parse<'a>(data: &'a [u8], src_ip: &IpAddr, dst_ip: &IpAddr) -> (r: Result<
    (TcpHeader, TcpOptions, &'a [u8]),
    WireError,
>)
    requires
        src_ip is V4 <==> dst_ip is V4,
    ensures
        match r {
            Ok((h, o, p)) => {
                &&& o.sack_blocks.wf()
                &&& parsed(data@, *src_ip, *dst_ip) == Ok::<
                    (TcpHeader, OptionsModel, Seq<u8>),
                    WireError,
                >((h, o@, p@))
            },
            Err(e) => parsed(data@, *src_ip, *dst_ip) == Err::<
                (TcpHeader, OptionsModel, Seq<u8>),
                WireError,
            >(e),
        },
{
    if data.len() < HEADER_LEN {
        return Err(WireError::Truncated);
    }
    let header_len: usize = (data[12] / 16) as usize * 4;
    if header_len < HEADER_LEN || header_len > data.len() {
        return Err(WireError::BadHeaderLen);
    }
    if segment_checksum(data, src_ip, dst_ip) != 0 {
        return Err(WireError::BadChecksum);
    }
    let header = TcpHeader {
        src_port: read_u16(data, 0),
        dst_port: read_u16(data, 2),
        seq: read_u32(data, 4),
        ack: read_u32(data, 8),
        flags: TcpFlags(data[13] % 64),
        window: read_u16(data, 14),
        header_len: header_len as u8,
    };
    match parse_options(&data[HEADER_LEN..header_len]) {
        Err(e) => Err(e),
        Ok(options) => Ok((header, options, tail(data, header_len))),
    }
}

/// The checksum of a segment, its pseudo-header included.
fn segment_checksum(data: &[u8], src_ip: &IpAddr, dst_ip: &IpAddr) -> (r: u16)
    requires
        src_ip is V4 <==> dst_ip is V4,
    ensures
        r == internet_checksum(covered(data@, *src_ip, *dst_ip)),
{
    let mut c = Checksum::new();
    c.add_pseudo(src_ip, dst_ip, proto::TCP, (data.len() as u64 % 0x1_0000_0000) as u32);
    c.add_bytes(data);
    proof {
        let p = pseudo_header(
            *src_ip,
            *dst_ip,
            proto::TCP,
            (data@.len() % 0x1_0000_0000) as u32,
        );
        assert(Seq::<u8>::empty() + p + data@ =~= covered(data@, *src_ip, *dst_ip));
    }
    c.finish()
}

/// Append the SACK blocks of an option body, as far as they fit.
fn push_blocks(blocks: &mut BoundedVec<(u32, u32), MAX_SACK_BLOCKS>, body: &[u8])
    requires
        old(blocks).wf(),
    ensures
        final(blocks).wf(),
        final(blocks)@ == at_most(old(blocks)@ + blocks_in(body@), MAX_SACK_BLOCKS as int),
{
    let n: usize = body.len() / 8;
    let mut i: usize = 0;
    proof {
        blocks.lemma_len_bounded();
        assert(old(blocks)@ + blocks_in(body@).take(0) =~= old(blocks)@);
    }
    while i < n
        invariant
            i <= n == body@.len() / 8,
            8 * n <= body@.len() <= usize::MAX,
            blocks.wf(),
            old(blocks)@.len() <= MAX_SACK_BLOCKS,
            blocks@ == at_most(
                old(blocks)@ + blocks_in(body@).take(i as int),
                MAX_SACK_BLOCKS as int,
            ),
        decreases n - i,
    {
        let left: u32 = read_u32(body, 8 * i);
        let right: u32 = read_u32(body, 8 * i + 4);
        let ghost before = blocks@;
        let _ = blocks.push((left, right));
        proof {
            let all = old(blocks)@ + blocks_in(body@).take(i as int);
            let more = old(blocks)@ + blocks_in(body@).take(i + 1);
            assert(more =~= all.push((left, right)));
            assert(blocks@ =~= at_most(more, MAX_SACK_BLOCKS as int));
        }
        i += 1;
    }
    assert(blocks_in(body@).take(n as int) =~= blocks_in(body@));
}

fn parse_options(opts: &[u8]) -> (r: Result<TcpOptions, WireError>)
    ensures
        match r {
            Ok(o) => o.sack_blocks.wf() && options_parsed(opts@, OptionsModel::empty()) == Ok::<
                OptionsModel,
                WireError,
            >(o@),
            Err(e) => options_parsed(opts@, OptionsModel::empty()) == Err::<
                OptionsModel,
                WireError,
            >(e),
        },
{
    let mut out = TcpOptions::default();
    let n: usize = opts.len();
    let mut at: usize = 0;
    assert(opts@.skip(0) =~= opts@);
    while at < n
        invariant
            at <= n == opts@.len(),
            out.sack_blocks.wf(),
            options_parsed(opts@, OptionsModel::empty()) == options_parsed(
                opts@.skip(at as int),
                out@,
            ),
        decreases n - at,
    {
        let ghost rest = opts@.skip(at as int);
        let kind: u8 = opts[at];
        if kind == OPT_END {
            return Ok(out);
        }
        if kind == OPT_NOP {
            assert(rest.skip(1) =~= opts@.skip(at + 1));
            at += 1;
        } else {
            if n - at < 2 {
                return Err(WireError::BadOption);
            }
            let len: usize = opts[at + 1] as usize;
            if len < 2 || len > n - at {
                return Err(WireError::BadOption);
            }
            let body: &[u8] = &opts[at + 2..at + len];
            assert(body@ =~= rest.subrange(2, len as int));
            assert(rest.skip(len as int) =~= opts@.skip(at + len));
            if kind == OPT_MSS {
                if body.len() != 2 {
                    return Err(WireError::BadOption);
                }
                out.mss = Some(read_u16(body, 0));
            } else if kind == OPT_WSCALE {
                if body.len() != 1 {
                    return Err(WireError::BadOption);
                }
                out.window_scale = Some(
                    if body[0] > 14 {
                        14
                    } else {
                        body[0]
                    },
                );
            } else if kind == OPT_SACK_PERMITTED {
                if body.len() != 0 {
                    return Err(WireError::BadOption);
                }
                out.sack_permitted = true;
            } else if kind == OPT_SACK {
                if body.len() % 8 != 0 {
                    return Err(WireError::BadOption);
                }
                push_blocks(&mut out.sack_blocks, body);
            }
            at += len;
        }
    }
    Ok(out)
}

/// Options to include when emitting a segment.
#[derive(Debug, Clone, Copy)]
pub struct TcpOptionsEmit {
    /// Advertise MSS (SYN / SYN-ACK only).
    pub mss: Option<u16>,
    /// Advertise window scale (SYN / SYN-ACK only).
    pub window_scale: Option<u8>,
    /// Advertise SACK permitted (SYN / SYN-ACK only).
    pub sack_permitted: bool,
    /// SACK blocks to send.
    pub sack_blocks: BoundedVec<(u32, u32), MAX_SACK_BLOCKS>,
}

impl View for TcpOptionsEmit {
    type V = OptionsModel;

    open spec fn view(&self) -> OptionsModel {
        OptionsModel {
            mss: self.mss,
            window_scale: self.window_scale,
            sack_permitted: self.sack_permitted,
            sack_blocks: self.sack_blocks@,
        }
    }
}

impl Default for TcpOptionsEmit {
    fn default() -> (r: Self)
        ensures
            r.sack_blocks.wf(),
            r@ == OptionsModel::empty(),
    {
        TcpOptionsEmit {
            mss: None,
            window_scale: None,
            sack_permitted: false,
            sack_blocks: BoundedVec::new(),
        }
    }
}

/// The bytes of a list of SACK blocks.
pub open spec fn block_bytes(blocks: Seq<(u32, u32)>) -> Seq<u8>
    decreases blocks.len(),
{
    if blocks.len() == 0 {
        Seq::empty()
    } else {
        block_bytes(blocks.drop_last()) + bytes32(blocks.last().0) + bytes32(blocks.last().1)
    }
}

impl OptionsModel {
    /// The MSS option.
    pub open spec fn mss_bytes(self) -> Seq<u8> {
        match self.mss {
            Some(mss) => seq![OPT_MSS, 4, hi8(mss), lo8(mss)],
            None => Seq::empty(),
        }
    }

    /// The window-scale option, padded to four bytes.
    pub open spec fn scale_bytes(self) -> Seq<u8> {
        match self.window_scale {
            Some(ws) => seq![OPT_NOP, OPT_WSCALE, 3, ws],
            None => Seq::empty(),
        }
    }

    /// The SACK-permitted option, padded to four bytes.
    pub open spec fn permitted_bytes(self) -> Seq<u8> {
        if self.sack_permitted {
            seq![OPT_NOP, OPT_NOP, OPT_SACK_PERMITTED, 2]
        } else {
            Seq::empty()
        }
    }

    /// The SACK option, padded to a multiple of four bytes.
    pub open spec fn sack_bytes(self) -> Seq<u8> {
        if self.sack_blocks.len() > 0 {
            seq![OPT_NOP, OPT_NOP, OPT_SACK, (2 + 8 * self.sack_blocks.len()) as u8] + block_bytes(
                self.sack_blocks,
            )
        } else {
            Seq::empty()
        }
    }

    /// The bytes of the options, in the order in which they are sent.
    pub open spec fn bytes(self) -> Seq<u8> {
        self.mss_bytes() + self.scale_bytes() + self.permitted_bytes() + self.sack_bytes()
    }

    /// Length of the options in a header.
    pub open spec fn encoded_len(self) -> int {
        (if self.mss is Some {
            4int
        } else {
            0
        }) + (if self.window_scale is Some {
            4int
        } else {
            0
        }) + (if self.sack_permitted {
            4int
        } else {
            0
        }) + (if self.sack_blocks.len() > 0 {
            4 + 8 * self.sack_blocks.len()
        } else {
            0
        })
    }
}

proof fn lemma_block_bytes_len(blocks: Seq<(u32, u32)>)
    ensures
        block_bytes(blocks).len() == 8 * blocks.len(),
    decreases blocks.len(),
{
    if blocks.len() > 0 {
        lemma_block_bytes_len(blocks.drop_last());
    }
}

proof fn lemma_encoded_len(o: OptionsModel)
    ensures
        o.bytes().len() == o.encoded_len(),
{
    lemma_block_bytes_len(o.sack_blocks);
}

impl TcpOptionsEmit {
    /// Length of the options in a header.
    pub fn encoded_len(&self) -> (r: usize)
        requires
            self.sack_blocks.wf(),
        ensures
            r == self@.encoded_len(),
            r <= 48,
            r % 4 == 0,
    {
        let mut n: usize = 0;
        if self.mss.is_some() {
            n += 4;
        }
        if self.window_scale.is_some() {
            n += 4;
        }
        if self.sack_permitted {
            n += 4;
        }
        if !self.sack_blocks.is_empty() {
            n += 4 + 8 * self.sack_blocks.len();
        }
        n
    }

    /// Write the options over `buf` from offset `at` on.
    fn write(&self, buf: &mut [u8], at: usize)
        requires
            self.sack_blocks.wf(),
            at + self@.encoded_len() <= old(buf)@.len(),
        ensures
            final(buf)@ == splice(old(buf)@, at as int, self@.bytes()),
    {
        let n: usize = buf.len();
        let ghost start = buf@;
        let ghost o = self@;
        proof {
            lemma_encoded_len(o);
            lemma_splice_nothing(start, at as int);
            lemma_splice_append(start, at as int, o.mss_bytes(), o.scale_bytes());
            lemma_splice_append(
                start,
                at as int,
                o.mss_bytes() + o.scale_bytes(),
                o.permitted_bytes(),
            );
            lemma_splice_append(
                start,
                at as int,
                o.mss_bytes() + o.scale_bytes() + o.permitted_bytes(),
                o.sack_bytes(),
            );
        }
        let mut pos: usize = at;
        if let Some(mss) = self.mss {
            let opt: [u8; 4] = [OPT_MSS, 4, hi8(mss), lo8(mss)];
            assert(opt@ =~= o.mss_bytes());
            write_bytes(buf, pos, &opt);
            pos += 4;
        }
        assert(buf@ == splice(start, at as int, o.mss_bytes()));
        proof {
            lemma_splice_nothing(buf@, pos as int);
        }
        if let Some(ws) = self.window_scale {
            let opt: [u8; 4] = [OPT_NOP, OPT_WSCALE, 3, ws];
            assert(opt@ =~= o.scale_bytes());
            write_bytes(buf, pos, &opt);
            pos += 4;
        }
        assert(buf@ == splice(start, at as int, o.mss_bytes() + o.scale_bytes()));
        proof {
            lemma_splice_nothing(buf@, pos as int);
        }
        if self.sack_permitted {
            let opt: [u8; 4] = [OPT_NOP, OPT_NOP, OPT_SACK_PERMITTED, 2];
            assert(opt@ =~= o.permitted_bytes());
            write_bytes(buf, pos, &opt);
            pos += 4;
        }
        proof {
            lemma_splice_nothing(buf@, pos as int);
        }
        if !self.sack_blocks.is_empty() {
            self.write_blocks(buf, pos);
        }
    }

    /// Write the SACK option over `buf` from offset `at` on.
    fn write_blocks(&self, buf: &mut [u8], at: usize)
        requires
            self.sack_blocks.wf(),
            self.sack_blocks@.len() > 0,
            at + 4 + 8 * self.sack_blocks@.len() <= old(buf)@.len(),
        ensures
            final(buf)@ == splice(old(buf)@, at as int, self@.sack_bytes()),
    {
        let n: usize = buf.len();
        let ghost start = buf@;
        let count: usize = self.sack_blocks.len();
        let head: [u8; 4] = [OPT_NOP, OPT_NOP, OPT_SACK, (2 + 8 * count) as u8];
        write_bytes(buf, at, &head);
        let mut i: usize = 0;
        assert(head@ + block_bytes(self.sack_blocks@.take(0)) =~= head@);
        while i < count
            invariant
                i <= count == self.sack_blocks@.len(),
                count <= MAX_SACK_BLOCKS,
                self.sack_blocks.wf(),
                at + 4 + 8 * count <= start.len() == n,
                head@.len() == 4,
                buf@ == splice(
                    start,
                    at as int,
                    head@ + block_bytes(self.sack_blocks@.take(i as int)),
                ),
            decreases count - i,
        {
            let (l, r) = self.sack_blocks.get(i);
            let ghost done = self.sack_blocks@.take(i as int);
            proof {
                let next = self.sack_blocks@.take(i + 1);
                let x = head@ + block_bytes(done);
                lemma_block_bytes_len(done);
                assert(next.drop_last() =~= done);
                assert(block_bytes(next) == block_bytes(done) + bytes32(l) + bytes32(r));
                lemma_splice_append(start, at as int, x, bytes32(l));
                lemma_splice_append(start, at as int, x + bytes32(l), bytes32(r));
                assert(x + bytes32(l) + bytes32(r) =~= head@ + block_bytes(next));
            }
            let here: usize = at + 4 + 8 * i;
            write_u32(buf, here, l);
            write_u32(buf, here + 4, r);
            i += 1;
        }
        assert(self.sack_blocks@.take(count as int) =~= self.sack_blocks@);
        assert(head@ =~= seq![OPT_NOP, OPT_NOP, OPT_SACK, (2 + 8 * count) as u8]);
    }
}

/// Fields for emitting a TCP segment.
#[derive(Debug, Clone, Copy)]
pub struct TcpEmit {
    /// Source port.
    pub src_port: u16,
    /// Destination port.
    pub dst_port: u16,
    /// Sequence number.
    pub seq: u32,
    /// Acknowledgment number (0 when ACK flag is clear).
    pub ack: u32,
    /// Control flags.
    pub flags: TcpFlags,
    /// Window field value (already scaled down by the sender).
    pub window: u16,
    /// Options to include.
    pub options: TcpOptionsEmit,
}

/// The fields of a segment to be sent.
#[verifier::ext_equal]
pub struct EmitModel {
    /// Source port.
    pub src_port: u16,
    /// Destination port.
    pub dst_port: u16,
    /// Sequence number.
    pub seq: u32,
    /// Acknowledgment number.
    pub ack: u32,
    /// Control flags.
    pub flags: TcpFlags,
    /// Window field.
    pub window: u16,
    /// Options.
    pub options: OptionsModel,
}

impl View for TcpEmit {
    type V = EmitModel;

    open spec fn view(&self) -> EmitModel {
        EmitModel {
            src_port: self.src_port,
            dst_port: self.dst_port,
            seq: self.seq,
            ack: self.ack,
            flags: self.flags,
            window: self.window,
            options: self.options@,
        }
    }
}

impl EmitModel {
    /// Length of header and options.
    pub open spec fn header_len(self) -> int {
        HEADER_LEN + self.options.encoded_len()
    }

    /// The fixed header with a zero checksum field; the urgent pointer is
    /// never used (RFC 6093).
    pub open spec fn bare_header(self) -> Seq<u8> {
        seq![
            hi8(self.src_port),
            lo8(self.src_port),
            hi8(self.dst_port),
            lo8(self.dst_port),
            bytes32(self.seq)[0],
            bytes32(self.seq)[1],
            bytes32(self.seq)[2],
            bytes32(self.seq)[3],
            bytes32(self.ack)[0],
            bytes32(self.ack)[1],
            bytes32(self.ack)[2],
            bytes32(self.ack)[3],
            (self.header_len() / 4 * 16) as u8,
            self.flags.0,
            hi8(self.window),
            lo8(self.window),
            0,
            0,
            0,
            0,
        ]
    }

    /// The segment with a zero checksum field.
    #[verifier::opaque]
    pub open spec fn bare_segment(self, payload: Seq<u8>) -> Seq<u8> {
        self.bare_header() + self.options.bytes() + payload
    }

    /// The segment as sent between two addresses.
    pub open spec fn segment(self, src: IpAddr, dst: IpAddr, payload: Seq<u8>) -> Seq<u8> {
        let bare = self.bare_segment(payload);
        splice(bare, 16, bytes16(internet_checksum(covered(bare, src, dst))))
    }
}

/// The fixed header as an array.
fn fixed_header(e: &TcpEmit, header_len: usize) -> (r: [u8; 20])
    requires
        header_len == e@.header_len(),
        header_len <= MAX_HEADER_LEN,
    ensures
        r@ == e@.bare_header(),
{
    let r: [u8; 20] = [
        hi8(e.src_port),
        lo8(e.src_port),
        hi8(e.dst_port),
        lo8(e.dst_port),
        (e.seq / 0x100_0000) as u8,
        (e.seq / 0x1_0000 % 0x100) as u8,
        (e.seq / 0x100 % 0x100) as u8,
        (e.seq % 0x100) as u8,
        (e.ack / 0x100_0000) as u8,
        (e.ack / 0x1_0000 % 0x100) as u8,
        (e.ack / 0x100 % 0x100) as u8,
        (e.ack % 0x100) as u8,
        (header_len / 4 * 16) as u8,
        e.flags.0,
        hi8(e.window),
        lo8(e.window),
        0,
        0,
        0,
        0,
    ];
    assert(r@ =~= e@.bare_header());
    r
}

/// Fill in the checksum of the segment in the first `total` bytes.
fn seal(buf: &mut [u8], total: usize, src_ip: &IpAddr, dst_ip: &IpAddr)
    requires
        src_ip is V4 <==> dst_ip is V4,
        18 <= total <= old(buf)@.len(),
    ensures
        final(buf)@ == splice(
            old(buf)@,
            16,
            bytes16(
                internet_checksum(covered(old(buf)@.subrange(0, total as int), *src_ip, *dst_ip)),
            ),
        ),
{
    let cks: u16 = segment_checksum(&buf[0..total], src_ip, dst_ip);
    write_u16(buf, 16, cks);
}

impl TcpEmit {
    /// Serialize header + options + payload into `buf`, with a zero checksum
    /// field.
    fn emit_bare(&self, payload: (&[u8], &[u8]), buf: &mut [u8]) -> (total: usize)
        requires
            self.options.sack_blocks.wf(),
            self@.header_len() <= MAX_HEADER_LEN,
            self@.header_len() + payload.0@.len() + payload.1@.len() <= old(buf)@.len(),
        ensures
            total == self@.header_len() + payload.0@.len() + payload.1@.len(),
            total == self@.bare_segment(payload.0@ + payload.1@).len(),
            final(buf)@ == splice(old(buf)@, 0, self@.bare_segment(payload.0@ + payload.1@)),
    {
        let n: usize = buf.len();
        let header_len: usize = HEADER_LEN + self.options.encoded_len();
        let total: usize = header_len + payload.0.len() + payload.1.len();
        let fixed = fixed_header(self, header_len);
        proof {
            reveal(EmitModel::bare_segment);
            let f = self@.bare_header();
            let o = self@.options.bytes();
            lemma_encoded_len(self@.options);
            lemma_splice_append(buf@, 0, f, o);
            lemma_splice_append(buf@, 0, f + o, payload.0@);
            lemma_splice_append(buf@, 0, f + o + payload.0@, payload.1@);
            assert(f + o + payload.0@ + payload.1@ =~= self@.bare_segment(payload.0@ + payload.1@));
        }
        write_bytes(buf, 0, &fixed);
        self.options.write(buf, HEADER_LEN);
        write_bytes(buf, header_len, payload.0);
        write_bytes(buf, header_len + payload.0.len(), payload.1);
        total
    }

    /// Serialize header + options + payload into `buf`, computing the
    /// checksum with the pseudo-header for `src_ip` to `dst_ip`. The payload
    /// is provided as two slices so ring-buffer contents need not be copied
    /// first. Returns the total segment length.
    ///
    /// The data-offset field caps the header at 60 bytes. Each group of
    /// options that this stack emits together (those of a SYN, or SACK blocks)
    /// stays under that; all of them at once would not.
    pub fn emit(
        &self,
        src_ip: &IpAddr,
        dst_ip: &IpAddr,
        payload: (&[u8], &[u8]),
        buf: &mut [u8],
    ) -> (total: usize)
        requires
            src_ip is V4 <==> dst_ip is V4,
            self.options.sack_blocks.wf(),
            self@.header_len() <= MAX_HEADER_LEN,
            self@.header_len() + payload.0@.len() + payload.1@.len() <= old(buf)@.len(),
        ensures
            total == self@.header_len() + payload.0@.len() + payload.1@.len(),
            final(buf)@ == splice(
                old(buf)@,
                0,
                self@.segment(*src_ip, *dst_ip, payload.0@ + payload.1@),
            ),
    {
        let ghost start = buf@;
        let ghost bare = self@.bare_segment(payload.0@ + payload.1@);
        let total: usize = self.emit_bare(payload, buf);
        proof {
            lemma_splice_inside(
                start,
                bare,
                16,
                bytes16(internet_checksum(covered(bare, *src_ip, *dst_ip))),
            );
        }
        seal(buf, total, src_ip, dst_ip);
        total
    }
}

/// A block behind other bytes is read back.
proof fn lemma_block_read(q: Seq<u8>, x: (u32, u32))
    ensures
        be32(q + bytes32(x.0) + bytes32(x.1), q.len() as int) == x.0,
        be32(q + bytes32(x.0) + bytes32(x.1), q.len() as int + 4) == x.1,
{
    let b = q + bytes32(x.0) + bytes32(x.1);
    lemma_be32_at(b, q.len() as int, x.0);
    lemma_be32_at(b, q.len() as int + 4, x.1);
}

/// Bytes further back do not change what is read.
proof fn lemma_be32_prefix(q: Seq<u8>, r: Seq<u8>, at: int)
    requires
        0 <= at,
        at + 4 <= q.len(),
    ensures
        be32(q + r, at) == be32(q, at),
{
}

proof fn lemma_blocks_round_trip(blocks: Seq<(u32, u32)>)
    ensures
        blocks_in(block_bytes(blocks)) == blocks,
    decreases blocks.len(),
{
    lemma_block_bytes_len(blocks);
    let b = block_bytes(blocks);
    if blocks.len() > 0 {
        let p = blocks.drop_last();
        let x = blocks.last();
        lemma_blocks_round_trip(p);
        lemma_block_bytes_len(p);
        let q = block_bytes(p);
        let r = bytes32(x.0) + bytes32(x.1);
        assert(b == q + bytes32(x.0) + bytes32(x.1));
        assert(b =~= q + r);
        lemma_block_read(q, x);
        assert forall|i: int| 0 <= i < blocks.len() implies blocks_in(b)[i] == blocks[i] by {
            if i < p.len() {
                lemma_be32_prefix(q, r, 8 * i);
                lemma_be32_prefix(q, r, 8 * i + 4);
                assert(blocks_in(q)[i] == p[i]);
            } else {
                assert(q.len() == 8 * i);
            }
        }
    }
    assert(blocks_in(b) =~= blocks);
}

proof fn lemma_skip_two_nops(rest: Seq<u8>, acc: OptionsModel)
    requires
        rest.len() >= 2,
        rest[0] == OPT_NOP,
        rest[1] == OPT_NOP,
    ensures
        options_parsed(rest, acc) == options_parsed(rest.skip(2), acc),
{
    assert(rest.skip(1)[0] == OPT_NOP);
    assert(rest.skip(1).skip(1) =~= rest.skip(2));
    assert(options_parsed(rest, acc) == options_parsed(rest.skip(1), acc));
    assert(options_parsed(rest.skip(1), acc) == options_parsed(rest.skip(1).skip(1), acc));
}

/// Reading the options that a segment carries gives back the options that
/// were put into it, as long as the window scale is a legal one.
pub proof fn options_round_trip(o: OptionsModel)
    requires
        o.sack_blocks.len() <= MAX_SACK_BLOCKS,
        o.window_scale matches Some(ws) ==> ws <= 14,
    ensures
        options_parsed(o.bytes(), OptionsModel::empty()) == Ok::<OptionsModel, WireError>(o),
{
    lemma_block_bytes_len(o.sack_blocks);
    lemma_blocks_round_trip(o.sack_blocks);
    let e = OptionsModel::empty();
    let a = OptionsModel { mss: o.mss, ..e };
    let b = OptionsModel { window_scale: o.window_scale, ..a };
    let c = OptionsModel { sack_permitted: o.sack_permitted, ..b };
    let all = o.bytes();
    let r1 = o.scale_bytes() + o.permitted_bytes() + o.sack_bytes();
    let r2 = o.permitted_bytes() + o.sack_bytes();
    let r3 = o.sack_bytes();
    assert(options_parsed(all, e) == options_parsed(r1, a)) by {
        if o.mss is Some {
            let m = o.mss->0;
            assert(all.subrange(2, 4) =~= seq![hi8(m), lo8(m)]);
            assert(be16(all.subrange(2, 4), 0) == m);
            assert(all.skip(4) =~= r1);
        } else {
            assert(all =~= r1);
        }
    }
    assert(options_parsed(r1, a) == options_parsed(r2, b)) by {
        if o.window_scale is Some {
            let t = r1.skip(1);
            assert(options_parsed(r1, a) == options_parsed(t, a));
            assert(t.subrange(2, 3) =~= seq![o.window_scale->0]);
            assert(t.skip(3) =~= r2);
        } else {
            assert(r1 =~= r2);
        }
    }
    assert(options_parsed(r2, b) == options_parsed(r3, c)) by {
        if o.sack_permitted {
            lemma_skip_two_nops(r2, b);
            let t = r2.skip(2);
            assert(t.subrange(2, 2) =~= Seq::<u8>::empty());
            assert(t.skip(2) =~= r3);
        } else {
            assert(r2 =~= r3);
        }
    }
    assert(options_parsed(r3, c) == Ok::<OptionsModel, WireError>(o)) by {
        if o.sack_blocks.len() > 0 {
            lemma_skip_two_nops(r3, c);
            let t = r3.skip(2);
            let n = 2 + 8 * o.sack_blocks.len();
            assert(t[1] == n);
            assert(t.subrange(2, n as int) =~= block_bytes(o.sack_blocks));
            assert(t.skip(n as int) =~= Seq::<u8>::empty());
            assert(c.sack_blocks + blocks_in(block_bytes(o.sack_blocks)) =~= o.sack_blocks);
            assert(block_bytes(o.sack_blocks).len() % 8 == 0);
            assert(t[0] == OPT_SACK);
            assert(options_parsed(t.skip(n as int), o) == Ok::<OptionsModel, WireError>(o));
            assert(option_applied(c, OPT_SACK, t.subrange(2, n as int)) == Ok::<
                OptionsModel,
                WireError,
            >(o));
        } else {
            assert(r3 =~= Seq::<u8>::empty());
            assert(o.sack_blocks =~= Seq::<(u32, u32)>::empty());
        }
    }
}

pub(crate) proof fn lemma_segment_fields(e: EmitModel, src: IpAddr, dst: IpAddr, payload: Seq<u8>)
    requires
        e.header_len() <= MAX_HEADER_LEN,
        e.flags.0 < 64,
    ensures
        ({
            let s = e.segment(src, dst, payload);
            &&& header_fields(s) == TcpHeader {
                src_port: e.src_port,
                dst_port: e.dst_port,
                seq: e.seq,
                ack: e.ack,
                flags: e.flags,
                window: e.window,
                header_len: e.header_len() as u8,
            }
            &&& s.len() == e.header_len() + payload.len()
            &&& s.subrange(20, e.header_len()) == e.options.bytes()
            &&& s.skip(e.header_len()) == payload
        }),
{
    lemma_encoded_len(e.options);
    reveal(EmitModel::bare_segment);
    let bare = e.bare_segment(payload);
    let s = e.segment(src, dst, payload);
    let hl = e.header_len();
    assert(hl % 4 == 0 && 20 <= hl <= 60);
    let b = e.bare_header();
    assert forall|i: int| 0 <= i < 16 implies s[i] == b[i] by {
        assert(bare[i] == b[i]);
    }
    assert(s[12] == hl / 4 * 16);
    lemma_be16_at(s, 0, e.src_port);
    lemma_be16_at(s, 2, e.dst_port);
    lemma_be32_at(s, 4, e.seq);
    lemma_be32_at(s, 8, e.ack);
    lemma_be16_at(s, 14, e.window);
    assert(s.subrange(20, hl) =~= e.options.bytes());
    assert(s.skip(hl) =~= payload);
}

/// Parsing an emitted segment between the same addresses gives back its
/// fields, options and payload.
pub proof fn emit_parse_round_trip(e: EmitModel, src: IpAddr, dst: IpAddr, payload: Seq<u8>)
    requires
        src is V4 <==> dst is V4,
        e.header_len() <= MAX_HEADER_LEN,
        e.options.sack_blocks.len() <= MAX_SACK_BLOCKS,
        e.options.window_scale matches Some(ws) ==> ws <= 14,
        e.flags.0 < 64,
    ensures
        parsed(e.segment(src, dst, payload), src, dst) == Ok::<
            (TcpHeader, OptionsModel, Seq<u8>),
            WireError,
        >(
            (
                TcpHeader {
                    src_port: e.src_port,
                    dst_port: e.dst_port,
                    seq: e.seq,
                    ack: e.ack,
                    flags: e.flags,
                    window: e.window,
                    header_len: e.header_len() as u8,
                },
                e.options,
                payload,
            ),
        ),
{
    lemma_encoded_len(e.options);
    options_round_trip(e.options);
    reveal(EmitModel::bare_segment);
    let bare = e.bare_segment(payload);
    let s = e.segment(src, dst, payload);
    lemma_segment_fields(e, src, dst, payload);
    let p = pseudo_header(src, dst, proto::TCP, (bare.len() % 0x1_0000_0000) as u32);
    assert(p.len() == 12 || p.len() == 38);
    let c = internet_checksum(p + bare);
    checksum_field_verifies(p + bare, (p.len() + 16) as int);
    assert(splice(p + bare, (p.len() + 16) as int, bytes16(c)) =~= p + s);
    assert(s.len() == bare.len());
}

/// A parsed window scale is a legal one (RFC 7323 section 2.3).
pub proof fn parsed_scale_is_legal(opts: Seq<u8>, acc: OptionsModel)
    requires
        acc.window_scale matches Some(s) ==> s <= 14,
    ensures
        options_parsed(opts, acc) matches Ok(o) ==> (o.window_scale matches Some(s) ==> s <= 14),
    decreases opts.len(),
{
    if opts.len() == 0 || opts[0] == OPT_END {
    } else if opts[0] == OPT_NOP {
        parsed_scale_is_legal(opts.skip(1), acc);
    } else if opts.len() < 2 || opts[1] < 2 || opts[1] > opts.len() {
    } else {
        match option_applied(acc, opts[0], opts.subrange(2, opts[1] as int)) {
            Err(e) => {},
            Ok(next) => {
                parsed_scale_is_legal(opts.skip(opts[1] as int), next);
            },
        }
    }
}

/// How long a serialized segment is.
pub proof fn segment_length(e: EmitModel, src: IpAddr, dst: IpAddr, payload: Seq<u8>)
    ensures
        e.segment(src, dst, payload).len() == e.header_len() + payload.len(),
{
    lemma_encoded_len(e.options);
    reveal(EmitModel::bare_segment);
    let bare = e.bare_segment(payload);
    assert(bare.len() == e.header_len() + payload.len());
    let c = bytes16(internet_checksum(covered(bare, src, dst)));
    assert(splice(bare, 16, c).len() == bare.len());
}

/// Where the fields of a segment stand (RFC 9293 section 3.1): ports, sequence
/// and acknowledgment number, data offset, flags and window, big-endian, then
/// the options, then the text.
pub proof fn segment_layout(e: EmitModel, src: IpAddr, dst: IpAddr, payload: Seq<u8>, i: int)
    requires
        e.header_len() <= MAX_HEADER_LEN,
        e.flags.0 < 64,
    ensures
        ({
            let s = e.segment(src, dst, payload);
            &&& s[0] * 256 + s[1] == e.src_port
            &&& s[2] * 256 + s[3] == e.dst_port
            &&& s[4] * 0x100_0000 + s[5] * 0x1_0000 + s[6] * 0x100 + s[7] == e.seq
            &&& s[8] * 0x100_0000 + s[9] * 0x1_0000 + s[10] * 0x100 + s[11] == e.ack
            &&& s[12] == 4 * e.header_len()
            &&& s[13] == e.flags.0
            &&& s[14] * 256 + s[15] == e.window
            &&& s[18] == 0 && s[19] == 0
            &&& 20 <= i < e.header_len() ==> s[i] == e.options.bytes()[i - 20]
            &&& e.header_len() <= i < s.len() ==> s[i] == payload[i - e.header_len()]
            &&& s.len() == e.header_len() + payload.len()
        }),
{
    lemma_segment_fields(e, src, dst, payload);
    let s = e.segment(src, dst, payload);
    lemma_encoded_len(e.options);
    let hl = e.header_len();
    assert(hl % 4 == 0);
    assert(s[12] == hl / 4 * 16 && s[13] == e.flags.0 && s[18] == 0 && s[19] == 0) by {
        reveal(EmitModel::bare_segment);
    }
    assert(be16(s, 0) == e.src_port && be16(s, 2) == e.dst_port && be16(s, 14) == e.window);
    assert(be32(s, 4) == e.seq && be32(s, 8) == e.ack);
    if 20 <= i < hl {
        assert(s.subrange(20, hl)[i - 20] == s[i]);
    }
    if hl <= i < s.len() {
        assert(s.skip(hl)[i - hl] == s[i]);
    }
}

/// The bytes of the options of a SYN (RFC 9293 section 3.2, RFC 7323 section
/// 2.2, RFC 2018 section 2): kind, length and value, after fillers.
pub proof fn syn_option_layout(mss: u16, scale: u8)
    ensures
        ({
            let m = (OptionsModel { mss: Some(mss), ..OptionsModel::empty() }).mss_bytes();
            let w = (OptionsModel {
                window_scale: Some(scale),
                ..OptionsModel::empty()
            }).scale_bytes();
            let p = (OptionsModel { sack_permitted: true, ..OptionsModel::empty() }).permitted_bytes();
            &&& m.len() == 4 && m[0] == 2 && m[1] == 4 && m[2] * 256 + m[3] == mss
            &&& w.len() == 4 && w[0] == 1 && w[1] == 3 && w[2] == 3 && w[3] == scale
            &&& p.len() == 4 && p[0] == 1 && p[1] == 1 && p[2] == 4 && p[3] == 2
        }),
{
}

/// The bytes of the SACK option (RFC 2018 section 3): fillers, kind, length, and
/// the left and right edge of each block.
pub proof fn sack_option_layout(l: u32, r: u32)
    ensures
        ({
            let b = (OptionsModel {
                sack_blocks: seq![(l, r)],
                ..OptionsModel::empty()
            }).sack_bytes();
            &&& b.len() == 12
            &&& b[0] == 1 && b[1] == 1 && b[2] == 5 && b[3] == 10
            &&& be32(b, 4) == l
            &&& be32(b, 8) == r
        }),
{
    let one = seq![(l, r)];
    assert(one.drop_last() =~= Seq::empty());
    reveal_with_fuel(block_bytes, 2);
    assert(block_bytes(one) =~= bytes32(l) + bytes32(r));
    let b = (OptionsModel { sack_blocks: one, ..OptionsModel::empty() }).sack_bytes();
    assert(b =~= seq![1u8, 1u8, 5u8, 10u8] + (bytes32(l) + bytes32(r)));
    lemma_block_read(seq![1u8, 1u8, 5u8, 10u8], (l, r));
    assert(b =~= seq![1u8, 1u8, 5u8, 10u8] + bytes32(l) + bytes32(r));
}

/// What is accepted is sound: a header of at least five words, inside the
/// segment, and a checksum that verifies between these two addresses; the text
/// is what stands behind the header.
pub proof fn accepted_segments_are_sound(data: Seq<u8>, src: IpAddr, dst: IpAddr)
    ensures
        parsed(data, src, dst) matches Ok((h, o, payload)) ==> {
            &&& 20 <= h.header_len <= data.len()
            &&& h.header_len == data[12] / 16 * 4
            &&& internet_checksum(covered(data, src, dst)) == 0
            &&& payload == data.skip(h.header_len as int)
            &&& h.src_port == data[0] * 256 + data[1]
            &&& h.dst_port == data[2] * 256 + data[3]
            &&& h.flags.0 == data[13] % 64
            &&& h.window == data[14] * 256 + data[15]
        },
{
}

/// An option of a kind that is not known is skipped by its length; fillers are
/// skipped, and nothing counts behind the end of the list.
pub proof fn unknown_options_are_skipped(kind: u8, body: Seq<u8>, rest: Seq<u8>, acc: OptionsModel)
    requires
        kind > 5,
        body.len() <= 253,
    ensures
        options_parsed(seq![kind, (2 + body.len()) as u8] + body + rest, acc) == options_parsed(
            rest,
            acc,
        ),
        options_parsed(seq![1u8] + rest, acc) == options_parsed(rest, acc),
        options_parsed(seq![0u8] + rest, acc) == Ok::<OptionsModel, WireError>(acc),
{
    let n = (2 + body.len()) as u8;
    let d = seq![kind, n] + body + rest;
    assert(d[0] == kind && d[1] == n);
    assert(d.skip(n as int) =~= rest);
    let e = seq![1u8] + rest;
    assert(e[0] == 1);
    assert(e.skip(1) =~= rest);
    let f = seq![0u8] + rest;
    assert(f[0] == 0);
}

/// An option that claims a length which covers less than itself, or more than
/// is there, is malformed.
pub proof fn impossible_options_are_refused(d: Seq<u8>, acc: OptionsModel)
    requires
        d.len() >= 2,
        d[0] > 1,
        d[1] < 2 || d[1] > d.len(),
    ensures
        options_parsed(d, acc) == Err::<OptionsModel, WireError>(WireError::BadOption),
{
}

} // verus!
