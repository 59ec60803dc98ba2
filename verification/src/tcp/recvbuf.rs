//! Fixed-capacity receive buffer with bounded out-of-order tracking.
//!
//! A byte ring whose offset 0 is the next byte the application will read.
//! In-order data extends `readable`; out-of-order data is written at its
//! offset within the window and tracked in a bounded range list, which also
//! feeds the SACK blocks we advertise (RFC 2018 sections 3 and 4).
//!
//! The ranges are sorted, disjoint, non-adjacent, start beyond `readable`,
//! and end within the buffer.
//!
//! Capacity `CAP` is const-generic (see [`crate::tcp::sendbuf`]); the
//! out-of-order range budget [`MAX_OOO_RANGES`] is a separate fixed bound.
use crate::config::MAX_OOO_RANGES;
use crate::util::{ring_at, BoundedVec};
use vstd::prelude::*;

verus! {

/// One out-of-order range, offsets relative to the ring start.
#[derive(Debug, Clone, Copy, PartialEq, Eq, Structural)]
pub struct Range {
    /// First offset of the range.
    pub start: u32,
    /// Offset behind the last one.
    pub end: u32,
    /// Insertion recency; RFC 2018 section 4 wants the most recent block
    /// first.
    pub stamp: u32,
}

impl Default for Range {
    fn default() -> (r: Self)
        ensures
            r == (Range { start: 0, end: 0, stamp: 0 }),
    {
        Range { start: 0, end: 0, stamp: 0 }
    }
}

/// Result of inserting received bytes.
#[derive(Debug, Clone, Copy, PartialEq, Eq, Structural)]
pub struct Inserted {
    /// How far the contiguous edge (RCV.NXT) advanced.
    pub advance: u32,
    /// False if bytes had to be dropped (out-of-order budget exhausted);
    /// the peer will retransmit. The window never overflows by construction.
    pub stored: bool,
}

/// Model of the receive buffer.
#[verifier::ext_equal]
pub struct RecvModel {
    /// The bytes of the window by offset from the unread edge. Only those
    /// below `readable` or inside a range were received.
    pub window: Seq<u8>,
    /// Length of the contiguous part the application can read.
    pub readable: u32,
    /// Out-of-order ranges beyond it.
    pub ranges: Seq<Range>,
    /// Recency of the latest insertion.
    pub stamp: u32,
}

/// How many leading ranges end before `off` (and do not touch it).
pub open spec fn ranges_before(ranges: Seq<Range>, off: u32) -> nat
    decreases ranges.len(),
{
    if ranges.len() > 0 && ranges[0].end < off {
        1 + ranges_before(ranges.drop_first(), off)
    } else {
        0
    }
}

/// How many leading ranges start at or before `end`.
pub open spec fn ranges_through(ranges: Seq<Range>, end: u32) -> nat
    decreases ranges.len(),
{
    if ranges.len() > 0 && ranges[0].start <= end {
        1 + ranges_through(ranges.drop_first(), end)
    } else {
        0
    }
}

/// The union of `[off, end)` with the ranges from `a` up to `b`, all of which
/// touch it.
pub open spec fn coalesce(ranges: Seq<Range>, a: int, b: int, off: u32, end: u32, stamp: u32) -> Range {
    Range {
        start: if a < b && ranges[a].start < off {
            ranges[a].start
        } else {
            off
        },
        end: if a < b && ranges[b - 1].end > end {
            ranges[b - 1].end
        } else {
            end
        },
        stamp,
    }
}

/// A range as far as it lies below `limit`.
pub open spec fn range_below(r: Range, limit: u32) -> Range {
    Range {
        end: if r.end <= limit {
            r.end
        } else {
            limit
        },
        ..r
    }
}

/// The parts of the ranges that lie below `limit`.
pub open spec fn ranges_below(ranges: Seq<Range>, limit: u32) -> Seq<Range>
    decreases ranges.len(),
{
    if ranges.len() == 0 {
        Seq::empty()
    } else {
        let s = ranges_below(ranges.drop_last(), limit);
        if ranges.last().start < limit {
            s.push(range_below(ranges.last(), limit))
        } else {
            s
        }
    }
}

/// `w` with `data` written over it at `off`.
pub open spec fn overwrite(w: Seq<u8>, off: int, data: Seq<u8>) -> Seq<u8> {
    w.take(off) + data + w.skip(off + data.len())
}

/// Age of a range at recency `now`, modulo the wrap of the stamp.
pub open spec fn age(r: Range, now: u32) -> int {
    if now >= r.stamp {
        now - r.stamp
    } else {
        now - r.stamp + 0x1_0000_0000
    }
}

/// How many leading ranges of `s` are at least as recent as `r`.
pub open spec fn recency_rank(s: Seq<Range>, r: Range, now: u32) -> nat
    decreases s.len(),
{
    if s.len() > 0 && age(s[0], now) <= age(r, now) {
        1 + recency_rank(s.drop_first(), r, now)
    } else {
        0
    }
}

/// The ranges ordered by recency, the most recent first; those of equal
/// recency by offset.
pub open spec fn by_recency(ranges: Seq<Range>, now: u32) -> Seq<Range>
    decreases ranges.len(),
{
    if ranges.len() == 0 {
        Seq::empty()
    } else {
        let s = by_recency(ranges.drop_last(), now);
        s.insert(recency_rank(s, ranges.last(), now) as int, ranges.last())
    }
}

impl RecvModel {
    /// An empty buffer of `cap` bytes.
    pub open spec fn empty(cap: nat) -> RecvModel {
        RecvModel {
            window: Seq::new(cap, |i: int| 0u8),
            readable: 0,
            ranges: Seq::empty(),
            stamp: 0,
        }
    }

    /// Whether the byte at `off` was received.
    pub open spec fn holds(self, off: int) -> bool {
        ||| 0 <= off < self.readable
        ||| exists|i: int|
            0 <= i < self.ranges.len() && (#[trigger] self.ranges[i]).start <= off
                < self.ranges[i].end
    }

    /// The bytes that the application can read.
    pub open spec fn pending(self) -> Seq<u8> {
        self.window.take(self.readable as int)
    }

    /// Ranges are sorted, disjoint, non-adjacent, not empty, beyond the
    /// readable edge, inside the window and within budget.
    pub open spec fn wf(self) -> bool {
        &&& self.window.len() <= u32::MAX
        &&& self.readable <= self.window.len()
        &&& self.ranges.len() <= MAX_OOO_RANGES
        &&& forall|i: int|
            0 <= i < self.ranges.len() ==> self.readable < (#[trigger] self.ranges[i]).start
                < self.ranges[i].end <= self.window.len()
        &&& forall|i: int, j: int|
            0 <= i < j < self.ranges.len() ==> (#[trigger] self.ranges[i]).end < (
            #[trigger] self.ranges[j]).start
    }

    /// How many bytes of `len` fit into the window at `off`.
    pub open spec fn fitting(self, off: u32, len: int) -> int {
        if len <= self.window.len() - off {
            len
        } else {
            self.window.len() - off
        }
    }

    /// The buffer after `data` arrived at offset `off`, and what is reported.
    ///
    /// Bytes below the readable edge are duplicates. Otherwise the bytes that
    /// fit are stored; the range they make is united with every range it
    /// touches. A range at the readable edge becomes readable; another one
    /// joins the list, and if the list is then over budget the range furthest
    /// from delivery is forgotten.
    pub open spec fn insert(self, off: u32, data: Seq<u8>) -> (RecvModel, Inserted) {
        let len = self.fitting(off, data.len() as int);
        if off < self.readable || len == 0 {
            (self, Inserted { advance: 0, stored: true })
        } else {
            let end = (off + len) as u32;
            let stamp = self.stamp.wrapping_add(1);
            let a = ranges_before(self.ranges, off) as int;
            let b = ranges_through(self.ranges, end) as int;
            let new = coalesce(self.ranges, a, b, off, end, stamp);
            let window = overwrite(self.window, off as int, data.take(len));
            if off == self.readable {
                (
                    RecvModel {
                        window,
                        readable: new.end,
                        ranges: self.ranges.skip(b),
                        stamp,
                    },
                    Inserted { advance: (new.end - self.readable) as u32, stored: true },
                )
            } else {
                let merged = self.ranges.take(a).push(new) + self.ranges.skip(b);
                let fits = merged.len() <= MAX_OOO_RANGES;
                (
                    RecvModel {
                        window,
                        readable: self.readable,
                        ranges: if fits {
                            merged
                        } else {
                            merged.drop_last()
                        },
                        stamp,
                    },
                    Inserted { advance: 0, stored: fits },
                )
            }
        }
    }

    /// The buffer after the application took `n` bytes.
    pub open spec fn consume(self, n: int) -> RecvModel {
        RecvModel {
            window: self.window.skip(n) + self.window.take(n),
            readable: (self.readable - n) as u32,
            ranges: self.ranges.map_values(
                |r: Range|
                    Range {
                        start: (r.start - n) as u32,
                        end: (r.end - n) as u32,
                        stamp: r.stamp,
                    },
            ),
            stamp: self.stamp,
        }
    }

    /// The buffer without what it holds out of order at or beyond `limit`.
    pub open spec fn cut_at(self, limit: u32) -> RecvModel {
        RecvModel { ranges: ranges_below(self.ranges, limit), ..self }
    }

    /// The out-of-order ranges as offsets from the readable edge, the most
    /// recent first, at most `max` of them.
    pub open spec fn sack_ranges(self, max: int) -> Seq<(u32, u32)> {
        let all = by_recency(self.ranges, self.stamp).map_values(
            |r: Range| ((r.start - self.readable) as u32, (r.end - self.readable) as u32),
        );
        if all.len() <= max {
            all
        } else {
            all.take(max)
        }
    }
}

proof fn lemma_ranges_before_is(ranges: Seq<Range>, off: u32, a: int)
    requires
        0 <= a <= ranges.len(),
        forall|i: int| 0 <= i < a ==> (#[trigger] ranges[i]).end < off,
        a < ranges.len() ==> ranges[a].end >= off,
    ensures
        ranges_before(ranges, off) == a,
    decreases ranges.len(),
{
    if a > 0 {
        assert(forall|i: int| 0 <= i < a - 1 ==> ranges.drop_first()[i] == ranges[i + 1]);
        lemma_ranges_before_is(ranges.drop_first(), off, a - 1);
    }
}

proof fn lemma_ranges_through_is(ranges: Seq<Range>, end: u32, b: int)
    requires
        0 <= b <= ranges.len(),
        forall|i: int| 0 <= i < b ==> (#[trigger] ranges[i]).start <= end,
        b < ranges.len() ==> ranges[b].start > end,
    ensures
        ranges_through(ranges, end) == b,
    decreases ranges.len(),
{
    if b > 0 {
        assert(forall|i: int| 0 <= i < b - 1 ==> ranges.drop_first()[i] == ranges[i + 1]);
        lemma_ranges_through_is(ranges.drop_first(), end, b - 1);
    }
}

proof fn lemma_ranges_before_props(ranges: Seq<Range>, off: u32)
    ensures
        ranges_before(ranges, off) <= ranges.len(),
        forall|i: int| 0 <= i < ranges_before(ranges, off) ==> (#[trigger] ranges[i]).end < off,
        ranges_before(ranges, off) < ranges.len() ==> ranges[ranges_before(ranges, off) as int].end
            >= off,
    decreases ranges.len(),
{
    if ranges.len() > 0 && ranges[0].end < off {
        let t = ranges.drop_first();
        lemma_ranges_before_props(t, off);
        assert forall|i: int| 0 <= i < ranges_before(ranges, off) implies (
        #[trigger] ranges[i]).end < off by {
            if i > 0 {
                assert(t[i - 1] == ranges[i]);
            }
        }
    }
}

proof fn lemma_ranges_through_props(ranges: Seq<Range>, end: u32)
    ensures
        ranges_through(ranges, end) <= ranges.len(),
        forall|i: int| 0 <= i < ranges_through(ranges, end) ==> (#[trigger] ranges[i]).start <= end,
        ranges_through(ranges, end) < ranges.len() ==> ranges[ranges_through(
            ranges,
            end,
        ) as int].start > end,
    decreases ranges.len(),
{
    if ranges.len() > 0 && ranges[0].start <= end {
        let t = ranges.drop_first();
        lemma_ranges_through_props(t, end);
        assert forall|i: int| 0 <= i < ranges_through(ranges, end) implies (
        #[trigger] ranges[i]).start <= end by {
            if i > 0 {
                assert(t[i - 1] == ranges[i]);
            }
        }
    }
}

/// Every insertion keeps the ranges sorted, disjoint, non-adjacent, inside
/// the window and within budget, and the window keeps its size.
pub proof fn insert_keeps_invariant(m: RecvModel, off: u32, data: Seq<u8>)
    requires
        m.wf(),
        off <= m.window.len(),
    ensures
        m.insert(off, data).0.wf(),
        m.insert(off, data).0.window.len() == m.window.len(),
        m.insert(off, data).0.readable == m.readable + m.insert(off, data).1.advance,
{
    let len = m.fitting(off, data.len() as int);
    if !(off < m.readable || len == 0) {
        let end = (off + len) as u32;
        lemma_ranges_before_props(m.ranges, off);
        lemma_ranges_through_props(m.ranges, end);
        let a = ranges_before(m.ranges, off) as int;
        let b = ranges_through(m.ranges, end) as int;
        if a > b {
            assert(m.ranges[b].start > end && m.ranges[b].end < off);
        }
        let new = coalesce(m.ranges, a, b, off, end, m.stamp.wrapping_add(1));
        let n = m.insert(off, data).0;
        if off == m.readable {
            assert(forall|i: int| 0 <= i < n.ranges.len() ==> n.ranges[i] == m.ranges[i + b]);
            if b > 0 {
                assert(forall|i: int| b <= i < m.ranges.len() ==> m.ranges[b - 1].end < m.ranges[i].start);
            }
        } else {
            let merged = m.ranges.take(a).push(new) + m.ranges.skip(b);
            assert forall|i: int| 0 <= i < merged.len() implies m.readable < (
            #[trigger] merged[i]).start < merged[i].end <= m.window.len() by {
                if i < a {
                    assert(merged[i] == m.ranges[i]);
                } else if i > a {
                    assert(merged[i] == m.ranges[i - a - 1 + b]);
                }
            }
            assert forall|i: int, j: int| 0 <= i < j < merged.len() implies (
            #[trigger] merged[i]).end < (#[trigger] merged[j]).start by {
                if i < a {
                    assert(merged[i] == m.ranges[i]);
                }
                if j < a {
                    assert(merged[j] == m.ranges[j]);
                }
                if i > a {
                    assert(merged[i] == m.ranges[i - a - 1 + b]);
                }
                if j > a {
                    assert(merged[j] == m.ranges[j - a - 1 + b]);
                }
            }
        }
    }
}

/// What ends below a limit still does after an insertion below it.
pub proof fn insert_ends_below(m: RecvModel, off: u32, data: Seq<u8>, limit: int)
    requires
        m.wf(),
        off <= m.window.len(),
        m.readable <= limit,
        off + data.len() <= limit,
        forall|i: int| 0 <= i < m.ranges.len() ==> (#[trigger] m.ranges[i]).end <= limit,
    ensures
        ({
            let n = m.insert(off, data).0;
            &&& n.readable <= limit
            &&& forall|i: int| 0 <= i < n.ranges.len() ==> (#[trigger] n.ranges[i]).end <= limit
        }),
{
    let len = m.fitting(off, data.len() as int);
    if !(off < m.readable || len == 0) {
        let end = (off + len) as u32;
        lemma_ranges_before_props(m.ranges, off);
        lemma_ranges_through_props(m.ranges, end);
        let a = ranges_before(m.ranges, off) as int;
        let b = ranges_through(m.ranges, end) as int;
        let new = coalesce(m.ranges, a, b, off, end, m.stamp.wrapping_add(1));
        assert(new.end <= limit);
        let n = m.insert(off, data).0;
        let merged = m.ranges.take(a).push(new) + m.ranges.skip(b);
        assert forall|i: int| 0 <= i < n.ranges.len() implies (#[trigger] n.ranges[i]).end
            <= limit by {
            if off == m.readable {
                assert(n.ranges[i] == m.ranges[i + b]);
            } else {
                assert(n.ranges[i] == merged[i]);
                if i < a {
                    assert(merged[i] == m.ranges[i]);
                } else if i > a {
                    assert(merged[i] == m.ranges[i - a - 1 + b]);
                }
            }
        }
    }
}

/// Exactly in-order data is never refused, however full the range list is:
/// the readable edge advances over all of it that fits the window.
pub proof fn in_order_data_is_never_refused(m: RecvModel, data: Seq<u8>)
    requires
        m.wf(),
    ensures
        m.insert(m.readable, data).1.stored,
        m.insert(m.readable, data).1.advance >= m.fitting(m.readable, data.len() as int),
{
    let len = m.fitting(m.readable, data.len() as int);
    if len > 0 {
        lemma_ranges_before_props(m.ranges, m.readable);
        lemma_ranges_through_props(m.ranges, (m.readable + len) as u32);
    }
}

/// Insertion never forgets a byte of the contiguous part, and never changes
/// one that the application can already read.
pub proof fn insert_keeps_pending_bytes(m: RecvModel, off: u32, data: Seq<u8>)
    requires
        m.wf(),
        off <= m.window.len(),
    ensures
        m.pending() == m.insert(off, data).0.pending().take(m.readable as int),
{
    insert_keeps_invariant(m, off, data);
    assert(m.pending() =~= m.insert(off, data).0.pending().take(m.readable as int));
}

/// What insertion leaves in the window: the new bytes at their offsets, the
/// old ones everywhere else.
pub proof fn insert_writes_only_its_offsets(m: RecvModel, off: u32, data: Seq<u8>, i: int)
    requires
        m.wf(),
        off <= m.window.len(),
        0 <= i < m.window.len(),
    ensures
        ({
            let len = m.fitting(off, data.len() as int);
            let w = m.insert(off, data).0.window;
            if off >= m.readable && off <= i < off + len {
                w[i] == data[i - off]
            } else {
                w[i] == m.window[i]
            }
        }),
{
}

/// The offsets held after an insertion are those held before and those
/// inserted; and all of them are, unless the budget made it forget some.
pub proof fn insert_holds_the_union(m: RecvModel, off: u32, data: Seq<u8>, i: int)
    requires
        m.wf(),
        off <= m.window.len(),
    ensures
        ({
            let len = m.fitting(off, data.len() as int);
            let (n, r) = m.insert(off, data);
            &&& n.holds(i) ==> m.holds(i) || (off <= i < off + len)
            &&& r.stored && (m.holds(i) || (off >= m.readable && off <= i < off + len)) ==> n.holds(
                i,
            )
        }),
{
    let len = m.fitting(off, data.len() as int);
    let (n, r) = m.insert(off, data);
    if !(off < m.readable || len == 0) {
        let end = (off + len) as u32;
        lemma_ranges_before_props(m.ranges, off);
        lemma_ranges_through_props(m.ranges, end);
        let a = ranges_before(m.ranges, off) as int;
        let b = ranges_through(m.ranges, end) as int;
        if a > b {
            assert(m.ranges[b].start > end && m.ranges[b].end < off);
        }
        let new = coalesce(m.ranges, a, b, off, end, m.stamp.wrapping_add(1));
        assert(new.start <= i < new.end ==> m.holds(i) || off <= i < off + len) by {
            if new.start <= i < off {
                assert(m.ranges[a].start <= i < m.ranges[a].end);
            }
            if end <= i < new.end {
                assert(m.ranges[b - 1].start <= i < m.ranges[b - 1].end);
            }
        }
        let merged = m.ranges.take(a).push(new) + m.ranges.skip(b);
        if n.holds(i) && !(0 <= i < n.readable) {
            let k = choose|k: int|
                0 <= k < n.ranges.len() && (#[trigger] n.ranges[k]).start <= i < n.ranges[k].end;
            if off == m.readable {
                assert(n.ranges[k] == m.ranges[k + b]);
            } else {
                assert(n.ranges[k] == merged[k]);
                if k < a {
                    assert(merged[k] == m.ranges[k]);
                } else if k > a {
                    assert(merged[k] == m.ranges[k - a - 1 + b]);
                }
            }
        }
        if m.holds(i) && !(0 <= i < m.readable) && r.stored {
            let k = choose|k: int|
                0 <= k < m.ranges.len() && (#[trigger] m.ranges[k]).start <= i < m.ranges[k].end;
            if off == m.readable {
                if k >= b {
                    assert(n.ranges[k - b] == m.ranges[k]);
                } else if k < b - 1 {
                    assert(m.ranges[k].end < m.ranges[b - 1].start);
                }
            } else {
                if k < a {
                    assert(n.ranges[k] == m.ranges[k]);
                } else if k >= b {
                    assert(n.ranges[k - b + a + 1] == m.ranges[k]);
                } else {
                    if a < k {
                        assert(m.ranges[a].end < m.ranges[k].start);
                    }
                    if k < b - 1 {
                        assert(m.ranges[k].end < m.ranges[b - 1].start);
                    }
                    assert(n.ranges[a] == new);
                }
            }
        }
        if off <= i < off + len && r.stored && off != m.readable {
            assert(n.ranges[a] == new);
        }
    }
}

proof fn lemma_ranges_below(ranges: Seq<Range>, limit: u32)
    requires
        forall|i: int|
            0 <= i < ranges.len() ==> (#[trigger] ranges[i]).start < ranges[i].end,
        forall|i: int, j: int|
            0 <= i < j < ranges.len() ==> (#[trigger] ranges[i]).end < (#[trigger] ranges[j]).start,
    ensures
        ranges_below(ranges, limit).len() <= ranges.len(),
        forall|i: int|
            0 <= i < ranges_below(ranges, limit).len() ==> (#[trigger] ranges_below(
                ranges,
                limit,
            )[i]) == range_below(ranges[i], limit) && ranges[i].start < limit,
        forall|i: int|
            ranges_below(ranges, limit).len() <= i < ranges.len() ==> (#[trigger] ranges[i]).start
                >= limit,
    decreases ranges.len(),
{
    if ranges.len() > 0 {
        let t = ranges.drop_last();
        assert forall|i: int| 0 <= i < t.len() implies (#[trigger] t[i]).start < t[i].end by {
            assert(t[i] == ranges[i]);
        }
        assert forall|i: int, j: int| 0 <= i < j < t.len() implies (#[trigger] t[i]).end < (
        #[trigger] t[j]).start by {
            assert(t[i] == ranges[i] && t[j] == ranges[j]);
        }
        lemma_ranges_below(t, limit);
        let s = ranges_below(t, limit);
        assert forall|i: int| s.len() <= i < t.len() implies (#[trigger] ranges[i]).start
            >= limit by {
            assert(t[i] == ranges[i]);
        }
        if ranges.last().start < limit {
            if s.len() < t.len() {
                assert(ranges[s.len() as int].start >= limit);
                assert(ranges[s.len() as int].end < ranges[ranges.len() - 1].start);
            }
            assert(s.len() == t.len());
        }
        assert forall|i: int| 0 <= i < ranges_below(ranges, limit).len() implies (
        #[trigger] ranges_below(ranges, limit)[i]) == range_below(ranges[i], limit)
            && ranges[i].start < limit by {
            if i < s.len() {
                assert(s[i] == range_below(t[i], limit));
                assert(t[i] == ranges[i]);
            }
        }
    }
}

/// Cutting off what is held at or beyond a limit keeps the invariant; exactly
/// the offsets below the limit are held as before.
pub proof fn cut_keeps_invariant(m: RecvModel, limit: u32)
    requires
        m.wf(),
        m.readable <= limit,
    ensures
        m.cut_at(limit).wf(),
        forall|i: int|
            0 <= i < m.cut_at(limit).ranges.len() ==> (#[trigger] m.cut_at(limit).ranges[i]).end
                <= limit,
        forall|i: int| #[trigger]
            m.cut_at(limit).holds(i) ==> m.holds(i) && i < limit,
        forall|i: int| #[trigger] m.holds(i) && i < limit ==> m.cut_at(limit).holds(i),
        (forall|i: int| 0 <= i < m.ranges.len() ==> (#[trigger] m.ranges[i]).end <= limit)
            ==> m.cut_at(limit) == m,
{
    lemma_ranges_below(m.ranges, limit);
    let n = m.cut_at(limit);
    assert forall|i: int, j: int| 0 <= i < j < n.ranges.len() implies (#[trigger] n.ranges[i]).end
        < (#[trigger] n.ranges[j]).start by {
        assert(m.ranges[i].end < m.ranges[j].start);
    }
    assert forall|i: int| 0 <= i < n.ranges.len() implies n.readable < (
    #[trigger] n.ranges[i]).start < n.ranges[i].end <= n.window.len() by {
        assert(m.readable < m.ranges[i].start);
    }
    assert forall|i: int| #[trigger] n.holds(i) implies m.holds(i) && i < limit by {
        if !(0 <= i < n.readable) {
            let k = choose|k: int|
                0 <= k < n.ranges.len() && (#[trigger] n.ranges[k]).start <= i < n.ranges[k].end;
            assert(m.ranges[k].start <= i < m.ranges[k].end);
        }
    }
    assert forall|i: int| #[trigger] m.holds(i) && i < limit implies n.holds(i) by {
        if !(0 <= i < m.readable) {
            let k = choose|k: int|
                0 <= k < m.ranges.len() && (#[trigger] m.ranges[k]).start <= i < m.ranges[k].end;
            assert(n.ranges[k] == range_below(m.ranges[k], limit));
        }
    }
    if forall|i: int| 0 <= i < m.ranges.len() ==> (#[trigger] m.ranges[i]).end <= limit {
        if n.ranges.len() < m.ranges.len() {
            assert(m.ranges[n.ranges.len() as int].end <= limit);
        }
        assert(n.ranges =~= m.ranges);
    }
}

/// Taking bytes keeps the invariant and shifts everything down.
pub proof fn consume_keeps_invariant(m: RecvModel, n: int)
    requires
        m.wf(),
        0 <= n <= m.readable,
    ensures
        m.consume(n).wf(),
        m.consume(n).window.len() == m.window.len(),
        m.consume(n).pending() == m.pending().skip(n),
        forall|i: int| 0 <= i < m.window.len() - n ==> m.consume(n).window[i] == m.window[i + n],
{
    assert(m.consume(n).pending() =~= m.pending().skip(n));
}

proof fn lemma_recency_rank_is(s: Seq<Range>, r: Range, now: u32, k: int)
    requires
        0 <= k <= s.len(),
        forall|i: int| 0 <= i < k ==> age(#[trigger] s[i], now) <= age(r, now),
        k < s.len() ==> age(s[k], now) > age(r, now),
    ensures
        recency_rank(s, r, now) == k,
    decreases s.len(),
{
    if k > 0 {
        assert(forall|i: int| 0 <= i < k - 1 ==> s.drop_first()[i] == s[i + 1]);
        lemma_recency_rank_is(s.drop_first(), r, now, k - 1);
    }
}

proof fn lemma_recency_rank_props(s: Seq<Range>, r: Range, now: u32)
    ensures
        recency_rank(s, r, now) <= s.len(),
        forall|i: int|
            0 <= i < recency_rank(s, r, now) ==> age(#[trigger] s[i], now) <= age(r, now),
        recency_rank(s, r, now) < s.len() ==> age(s[recency_rank(s, r, now) as int], now) > age(
            r,
            now,
        ),
    decreases s.len(),
{
    if s.len() > 0 && age(s[0], now) <= age(r, now) {
        let t = s.drop_first();
        lemma_recency_rank_props(t, r, now);
        assert forall|i: int| 0 <= i < recency_rank(s, r, now) implies age(#[trigger] s[i], now)
            <= age(r, now) by {
            if i > 0 {
                assert(t[i - 1] == s[i]);
            }
        }
    }
}

/// Ordering by recency keeps exactly the given ranges and puts the most
/// recent ones first.
pub proof fn recency_order_is_sorted(ranges: Seq<Range>, now: u32)
    ensures
        by_recency(ranges, now).len() == ranges.len(),
        by_recency(ranges, now).to_multiset() == ranges.to_multiset(),
        forall|i: int, j: int|
            0 <= i < j < ranges.len() ==> age(#[trigger] by_recency(ranges, now)[i], now) <= age(
                #[trigger] by_recency(ranges, now)[j],
                now,
            ),
    decreases ranges.len(),
{
    broadcast use vstd::seq_lib::group_to_multiset_ensures;

    if ranges.len() > 0 {
        let t = ranges.drop_last();
        let r = ranges.last();
        recency_order_is_sorted(t, now);
        let s = by_recency(t, now);
        lemma_recency_rank_props(s, r, now);
        let k = recency_rank(s, r, now) as int;
        assert(ranges =~= t.push(r));
        let u = s.insert(k, r);
        s.to_multiset_ensures();
        assert(u.to_multiset() =~= s.to_multiset().insert(r));
        assert forall|i: int, j: int| 0 <= i < j < u.len() implies age(#[trigger] u[i], now) <= age(
            #[trigger] u[j],
            now,
        ) by {
            let p = if i < k { i } else { i - 1 };
            let q = if j < k { j } else { j - 1 };
            if i != k {
                assert(u[i] == s[p]);
            }
            if j != k {
                assert(u[j] == s[q]);
            }
            if i == k && k < s.len() {
                assert(age(s[k], now) <= age(s[q], now));
            }
        }
    }
}

/// Receive-side byte ring of capacity `CAP` plus reassembly bookkeeping.
#[derive(Clone, Copy)]
pub struct RecvBuffer<const CAP: usize> {
    buf: [u8; CAP],
    /// Ring index of offset 0.
    start: usize,
    /// Contiguous bytes ready for the application (offset 0..readable).
    readable: u32,
    /// Out-of-order ranges beyond `readable`.
    ranges: BoundedVec<Range, MAX_OOO_RANGES>,
    stamp: u32,
}

impl<const CAP: usize> View for RecvBuffer<CAP> {
    type V = RecvModel;

    closed spec fn view(&self) -> RecvModel {
        RecvModel {
            window: Seq::new(
                CAP as nat,
                |i: int| self.buf@[ring_at(self.start as int, i, CAP as int)],
            ),
            readable: self.readable,
            ranges: self.ranges@,
            stamp: self.stamp,
        }
    }
}

impl<const CAP: usize> Default for RecvBuffer<CAP> {
    fn default() -> (r: Self)
        ensures
            CAP <= u32::MAX ==> r.wf(),
            r@ == RecvModel::empty(CAP as nat),
    {
        Self::new()
    }
}

impl<const CAP: usize> RecvBuffer<CAP> {
    spec fn inv(&self) -> bool {
        &&& self.start < CAP || self.start == 0
        &&& self.ranges.wf()
    }

    /// Well-formedness: the front lies in the ring, and the model's invariant
    /// holds of a window as large as the capacity.
    pub closed spec fn wf(&self) -> bool {
        &&& self.inv()
        &&& self@.wf()
    }

    /// What well-formedness says of the model.
    pub broadcast proof fn lemma_model_wf(&self)
        requires
            #[trigger] self.wf(),
        ensures
            self@.wf(),
            self@.window.len() == CAP,
    {
    }

    /// An empty buffer.
    pub fn new() -> (r: Self)
        ensures
            CAP <= u32::MAX ==> r.wf(),
            r@ == RecvModel::empty(CAP as nat),
    {
        let r = RecvBuffer {
            buf: [0u8; CAP],
            start: 0,
            readable: 0,
            ranges: BoundedVec::new(),
            stamp: 0,
        };
        assert(r@ =~= RecvModel::empty(CAP as nat));
        r
    }

    /// Total capacity in bytes.
    pub fn capacity(&self) -> (r: usize)
        ensures
            r == CAP,
    {
        CAP
    }

    /// Bytes ready for the application.
    pub fn readable(&self) -> (r: usize)
        ensures
            r == self@.readable,
    {
        self.readable as usize
    }

    /// Window to advertise: free space beyond the contiguous edge.
    /// Out-of-order data lives inside this window, so it does not shrink it.
    pub fn window(&self) -> (r: u32)
        requires
            self.wf(),
        ensures
            r == CAP - self@.readable,
    {
        CAP as u32 - self.readable
    }

    /// Ring index of offset `off`.
    fn at(&self, off: usize) -> (r: usize)
        requires
            self.inv(),
            off < CAP,
        ensures
            r == ring_at(self.start as int, off as int, CAP as int),
            r < CAP,
    {
        let room: usize = CAP - self.start;
        if off < room {
            self.start + off
        } else {
            off - room
        }
    }

    /// Insert `data` at offset `off` from the unread edge, i.e.
    /// `off == readable` for exactly in-order data. Bytes beyond the window
    /// are not stored.
    pub fn insert(&mut self, off: u32, data: &[u8]) -> (r: Inserted)
        requires
            old(self).wf(),
            off <= CAP,
        ensures
            final(self).wf(),
            (final(self)@, r) == old(self)@.insert(off, data@),
    {
        proof {
            insert_keeps_invariant(self@, off, data@);
        }
        if off < self.readable {
            return Inserted { advance: 0, stored: true };
        }
        let room: usize = CAP - off as usize;
        let len: usize = if data.len() <= room {
            data.len()
        } else {
            room
        };
        if len == 0 {
            return Inserted { advance: 0, stored: true };
        }
        let end: u32 = off + len as u32;
        self.write_at(off, data, len);
        self.stamp = self.stamp.wrapping_add(1);

        let n: usize = self.ranges.len();
        let mut a: usize = 0;
        while a < n && self.ranges.get(a).end < off
            invariant
                a <= n == self.ranges@.len(),
                self.ranges.wf(),
                forall|i: int| 0 <= i < a ==> (#[trigger] self.ranges@[i]).end < off,
            ensures
                a < n ==> self.ranges@[a as int].end >= off,
            decreases n - a,
        {
            a += 1;
        }
        let mut b: usize = 0;
        while b < n && self.ranges.get(b).start <= end
            invariant
                b <= n == self.ranges@.len(),
                self.ranges.wf(),
                forall|i: int| 0 <= i < b ==> (#[trigger] self.ranges@[i]).start <= end,
            ensures
                b < n ==> self.ranges@[b as int].start > end,
            decreases n - b,
        {
            b += 1;
        }
        proof {
            lemma_ranges_before_is(self.ranges@, off, a as int);
            lemma_ranges_through_is(self.ranges@, end, b as int);
        }
        let mut new = Range { start: off, end, stamp: self.stamp };
        if a < b {
            if self.ranges.get(a).start < off {
                new.start = self.ranges.get(a).start;
            }
            if self.ranges.get(b - 1).end > end {
                new.end = self.ranges.get(b - 1).end;
            }
        }
        let ghost all = self.ranges@;
        let mut merged: BoundedVec<Range, MAX_OOO_RANGES> = BoundedVec::new();
        if off == self.readable {
            let advance: u32 = new.end - self.readable;
            self.readable = new.end;
            let _ = append_ranges(&mut merged, &self.ranges, b, n);
            self.ranges = merged;
            assert(self.ranges@ =~= all.skip(b as int));
            assert(self@ =~= old(self)@.insert(off, data@).0);
            Inserted { advance, stored: true }
        } else {
            let _ = append_ranges(&mut merged, &self.ranges, 0, a);
            assert(merged@ =~= all.take(a as int));
            let ghost full = all.take(a as int).push(new) + all.skip(b as int);
            let kept = merged.push(new).is_ok();
            let rest = append_ranges(&mut merged, &self.ranges, b, n);
            let stored = kept && rest;
            proof {
                if stored {
                    assert(merged@ =~= full);
                } else {
                    assert(merged@ =~= full.drop_last());
                }
            }
            self.ranges = merged;
            assert(self@ =~= old(self)@.insert(off, data@).0);
            Inserted { advance: 0, stored }
        }
    }

    /// Write the first `len` bytes of `data` into the window at `off`.
    fn write_at(&mut self, off: u32, data: &[u8], len: usize)
        requires
            old(self).inv(),
            len <= data@.len(),
            off + len <= CAP <= u32::MAX,
        ensures
            final(self).inv(),
            final(self)@ == (RecvModel {
                window: overwrite(old(self)@.window, off as int, data@.take(len as int)),
                ..old(self)@
            }),
            final(self).readable == old(self).readable,
            final(self).ranges == old(self).ranges,
            final(self).stamp == old(self).stamp,
    {
        let mut i: usize = 0;
        assert(self@.window =~= overwrite(old(self)@.window, off as int, data@.take(0)));
        while i < len
            invariant
                i <= len <= data@.len(),
                off + len <= CAP <= u32::MAX,
                self.inv(),
                self.start == old(self).start,
                self.readable == old(self).readable,
                self.ranges == old(self).ranges,
                self.stamp == old(self).stamp,
                self@.window == overwrite(old(self)@.window, off as int, data@.take(i as int)),
            decreases len - i,
        {
            let ghost before = self@.window;
            let at: usize = self.at(off as usize + i);
            self.buf[at] = data[i];
            assert(self@.window =~= before.update(off + i, data@[i as int]));
            i += 1;
            assert(self@.window =~= overwrite(old(self)@.window, off as int, data@.take(i as int)));
        }
    }

    /// Copy out up to `out.len()` readable bytes, freeing window space.
    pub fn read(&mut self, out: &mut [u8]) -> (n: usize)
        requires
            old(self).wf(),
        ensures
            final(self).wf(),
            n == if old(out)@.len() <= old(self)@.readable {
                old(out)@.len() as int
            } else {
                old(self)@.readable as int
            },
            final(out)@ == old(self)@.pending().take(n as int) + old(out)@.skip(n as int),
            final(self)@ == old(self)@.consume(n as int),
    {
        let n: usize = if out.len() <= self.readable as usize {
            out.len()
        } else {
            self.readable as usize
        };
        proof {
            consume_keeps_invariant(self@, n as int);
        }
        let mut i: usize = 0;
        while i < n
            invariant
                i <= n <= old(out)@.len(),
                n <= self.readable <= CAP,
                *self == *old(self),
                self.wf(),
                out@ == self@.pending().take(i as int) + old(out)@.skip(i as int),
            decreases n - i,
        {
            let at: usize = self.at(i);
            out[i] = self.buf[at];
            i += 1;
            assert(out@ =~= self@.pending().take(i as int) + old(out)@.skip(i as int));
        }
        let to_end: usize = CAP - self.start;
        self.start = if n < to_end {
            self.start + n
        } else {
            n - to_end
        };
        self.readable -= n as u32;
        assert(self@.window =~= old(self)@.consume(n as int).window);
        let mut k: usize = 0;
        while k < self.ranges.len()
            invariant
                k <= self.ranges@.len() == old(self).ranges@.len(),
                self.start < CAP || self.start == 0,
                self.ranges.wf(),
                old(self).wf(),
                n <= old(self).readable,
                self.readable == old(self).readable - n,
                self.stamp == old(self).stamp,
                self@.window == old(self)@.consume(n as int).window,
                forall|i: int|
                    0 <= i < k ==> #[trigger] self.ranges@[i] == old(self)@.consume(
                        n as int,
                    ).ranges[i],
                forall|i: int|
                    k <= i < self.ranges@.len() ==> #[trigger] self.ranges@[i] == old(
                        self,
                    ).ranges@[i],
            decreases self.ranges@.len() - k,
        {
            let r = self.ranges.get(k);
            assert(r == old(self)@.ranges[k as int]);
            self.ranges.set(
                k,
                Range { start: r.start - n as u32, end: r.end - n as u32, stamp: r.stamp },
            );
            k += 1;
        }
        assert(self@ =~= old(self)@.consume(n as int));
        n
    }

    /// Forget what is held out of order at or beyond offset `limit`.
    pub fn cut_at(&mut self, limit: u32)
        requires
            old(self).wf(),
            old(self)@.readable <= limit,
        ensures
            final(self).wf(),
            final(self)@ == old(self)@.cut_at(limit),
    {
        proof {
            cut_keeps_invariant(self@, limit);
        }
        let n: usize = self.ranges.len();
        let mut kept: BoundedVec<Range, MAX_OOO_RANGES> = BoundedVec::new();
        let mut i: usize = 0;
        assert(self.ranges@.take(0) =~= Seq::<Range>::empty());
        while i < n
            invariant
                i <= n == self.ranges@.len(),
                n <= MAX_OOO_RANGES,
                *self == *old(self),
                self.ranges.wf(),
                kept.wf(),
                kept@ == ranges_below(self.ranges@.take(i as int), limit),
                kept@.len() <= i,
            decreases n - i,
        {
            let r = self.ranges.get(i);
            assert(self.ranges@.take(i + 1).drop_last() =~= self.ranges@.take(i as int));
            if r.start < limit {
                let end: u32 = if r.end <= limit {
                    r.end
                } else {
                    limit
                };
                let _ = kept.push(Range { end, ..r });
            }
            i += 1;
        }
        assert(self.ranges@.take(n as int) =~= self.ranges@);
        self.ranges = kept;
        assert(self@ =~= old(self)@.cut_at(limit));
    }

    /// Out-of-order ranges as offsets relative to RCV.NXT, most recent first
    /// (for SACK generation; RFC 2018 section 4), as many as `out` can hold.
    pub fn sack_ranges<const N: usize>(&self, out: &mut BoundedVec<(u32, u32), N>)
        requires
            self.wf(),
        ensures
            final(out).wf(),
            final(out)@ == self@.sack_ranges(N as int),
    {
        out.clear();
        let n: usize = self.ranges.len();
        let mut order: BoundedVec<Range, MAX_OOO_RANGES> = BoundedVec::new();
        let mut i: usize = 0;
        while i < n
            invariant
                i <= n == self.ranges@.len(),
                self.wf(),
                order.wf(),
                order@ == by_recency(self.ranges@.take(i as int), self.stamp),
                order@.len() == i,
            decreases n - i,
        {
            let r = self.ranges.get(i);
            let mut k: usize = 0;
            while k < order.len() && self.stamp.wrapping_sub(order.get(k).stamp)
                <= self.stamp.wrapping_sub(r.stamp)
                invariant
                    k <= order@.len(),
                    order.wf(),
                    forall|j: int|
                        0 <= j < k ==> age(#[trigger] order@[j], self.stamp) <= age(r, self.stamp),
                ensures
                    k < order@.len() ==> age(order@[k as int], self.stamp) > age(r, self.stamp),
                decreases order@.len() - k,
            {
                k += 1;
            }
            proof {
                lemma_recency_rank_is(order@, r, self.stamp, k as int);
                assert(self.ranges@.take(i + 1).drop_last() =~= self.ranges@.take(i as int));
                assert(n <= MAX_OOO_RANGES);
            }
            let _ = order.insert(k, r);
            i += 1;
        }
        assert(self.ranges@.take(n as int) =~= self.ranges@);
        let ghost all = by_recency(self.ranges@, self.stamp).map_values(
            |r: Range| ((r.start - self.readable) as u32, (r.end - self.readable) as u32),
        );
        proof {
            recency_order_is_sorted(self.ranges@, self.stamp);
        }
        let mut j: usize = 0;
        while j < n && !out.is_full()
            invariant
                j <= n == order@.len(),
                self.wf(),
                self.ranges@.len() == n,
                order@ == by_recency(self.ranges@, self.stamp),
                order@.to_multiset() == self.ranges@.to_multiset(),
                order.wf(),
                out.wf(),
                all == order@.map_values(
                    |r: Range| ((r.start - self.readable) as u32, (r.end - self.readable) as u32),
                ),
                out@ == all.take(j as int),
            ensures
                out@ == all.take(j as int),
                out.wf(),
                j <= n,
                j == n || out@.len() == N,
            decreases n - j,
        {
            let r = order.get(j);
            proof {
                broadcast use vstd::seq_lib::group_to_multiset_ensures;

                assert(order@.to_multiset().count(r) > 0) by {
                    order@.to_multiset_ensures();
                    assert(order@.contains(order@[j as int]));
                }
                assert(self.ranges@.contains(r)) by {
                    self.ranges@.to_multiset_ensures();
                }
                let k = choose|k: int| 0 <= k < self.ranges@.len() && self.ranges@[k] == r;
                assert(self@.ranges[k] == r);
            }
            let _ = out.push((r.start - self.readable, r.end - self.readable));
            j += 1;
            assert(out@ =~= all.take(j as int));
        }
        proof {
            let m = self@;
            let theirs = by_recency(m.ranges, m.stamp).map_values(
                |r: Range| ((r.start - m.readable) as u32, (r.end - m.readable) as u32),
            );
            assert(all =~= theirs);
            assert(all.take(n as int) =~= all);
            out.lemma_len_bounded();
        }
        assert(out@ =~= self@.sack_ranges(N as int));
    }
}

/// Append the ranges of `src` from `from` up to `to`, as far as they fit;
/// true if all of them did.
fn append_ranges(
    dst: &mut BoundedVec<Range, MAX_OOO_RANGES>,
    src: &BoundedVec<Range, MAX_OOO_RANGES>,
    from: usize,
    to: usize,
) -> (all: bool)
    requires
        old(dst).wf(),
        src.wf(),
        from <= to <= src@.len(),
    ensures
        final(dst).wf(),
        ({
            let n = to - from;
            let room = MAX_OOO_RANGES - old(dst)@.len();
            &&& all == (n <= room)
            &&& final(dst)@ == old(dst)@ + src@.subrange(
                from as int,
                from + if n <= room {
                    n
                } else {
                    room
                },
            )
        }),
{
    let mut i: usize = from;
    proof {
        dst.lemma_len_bounded();
    }
    assert(dst@ =~= old(dst)@ + src@.subrange(from as int, from as int));
    while i < to
        invariant
            from <= i <= to <= src@.len(),
            dst.wf(),
            src.wf(),
            i - from <= MAX_OOO_RANGES - old(dst)@.len(),
            dst@ == old(dst)@ + src@.subrange(from as int, i as int),
            dst@.len() == old(dst)@.len() + (i - from),
        decreases to - i,
    {
        if dst.push(src.get(i)).is_err() {
            return false;
        }
        i += 1;
        assert(dst@ =~= old(dst)@ + src@.subrange(from as int, i as int));
    }
    true
}

} // verus!
