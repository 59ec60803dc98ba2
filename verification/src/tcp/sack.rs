//! Send-side SACK scoreboard (RFC 2018, supporting RFC 6675-style recovery).
//!
//! Tracks which ranges above SND.UNA the peer has selectively acknowledged.
//! Per RFC 2018 section 8 the data receiver may renege, so SACKed ranges are
//! purely advisory: bytes are never released from the send buffer until
//! cumulatively acknowledged, and the scoreboard is cleared on RTO.
use super::seq::{half_space, SeqNr};
use crate::config::MAX_SACK_RANGES;
use crate::util::BoundedVec;
use vstd::prelude::*;

verus! {

/// Send-side scoreboard of SACKed ranges; its model is their sequence.
#[derive(Debug, Clone, Copy)]
pub struct SackScoreboard {
    ranges: BoundedVec<(SeqNr, SeqNr), MAX_SACK_RANGES>,
}

/// The ranges are sorted, disjoint, non-adjacent, not empty, between SND.UNA
/// and SND.NXT, and within budget.
pub open spec fn board_valid(s: Seq<(SeqNr, SeqNr)>, una: SeqNr, nxt: SeqNr) -> bool {
    &&& una.distance_to(nxt) < half_space()
    &&& s.len() <= MAX_SACK_RANGES
    &&& forall|i: int|
        0 <= i < s.len() ==> una.distance_to((#[trigger] s[i]).0) < una.distance_to(s[i].1)
            <= una.distance_to(nxt)
    &&& forall|i: int, j: int|
        0 <= i < j < s.len() ==> una.distance_to((#[trigger] s[i]).1) < una.distance_to(
            (#[trigger] s[j]).0,
        )
}

/// How many leading ranges end before `l`.
pub open spec fn board_before(s: Seq<(SeqNr, SeqNr)>, l: SeqNr) -> nat
    decreases s.len(),
{
    if s.len() > 0 && s[0].1.lt(l) {
        1 + board_before(s.drop_first(), l)
    } else {
        0
    }
}

/// How many leading ranges start at or before `r`.
pub open spec fn board_through(s: Seq<(SeqNr, SeqNr)>, r: SeqNr) -> nat
    decreases s.len(),
{
    if s.len() > 0 && !r.lt(s[0].0) {
        1 + board_through(s.drop_first(), r)
    } else {
        0
    }
}

/// Whether one of the ranges holds all of `[l, r)`.
pub open spec fn board_contains(s: Seq<(SeqNr, SeqNr)>, l: SeqNr, r: SeqNr) -> bool {
    exists|i: int| 0 <= i < s.len() && (#[trigger] s[i]).0.le(l) && r.le(s[i].1)
}

/// The scoreboard with `[l, r)` added, united with the ranges it touches, and
/// whether that told anything new. Beyond the budget nothing is learned.
pub open spec fn board_merge(s: Seq<(SeqNr, SeqNr)>, l: SeqNr, r: SeqNr) -> (
    Seq<(SeqNr, SeqNr)>,
    bool,
) {
    if board_contains(s, l, r) {
        (s, false)
    } else {
        let a = board_before(s, l) as int;
        let b = board_through(s, r) as int;
        let new = (
            if a < b {
                l.min(s[a].0)
            } else {
                l
            },
            if a < b {
                r.max(s[b - 1].1)
            } else {
                r
            },
        );
        let merged = s.take(a).push(new) + s.skip(b);
        if merged.len() <= MAX_SACK_RANGES {
            (merged, true)
        } else {
            (s, false)
        }
    }
}

/// Whether a SACK block is not empty, above the cumulative point, not above
/// what was sent, and not absurdly old.
pub open spec fn block_plausible(l: SeqNr, r: SeqNr, una: SeqNr, nxt: SeqNr) -> bool {
    l.lt(r) && una.lt(r) && r.le(nxt) && una.sub(0x10_0000).le(l)
}

/// The scoreboard after one SACK block, and whether it told anything new.
/// What lies below SND.UNA is cut off.
pub open spec fn board_ingest_one(
    s: Seq<(SeqNr, SeqNr)>,
    block: (u32, u32),
    una: SeqNr,
    nxt: SeqNr,
) -> (Seq<(SeqNr, SeqNr)>, bool) {
    let l = SeqNr(block.0);
    let r = SeqNr(block.1);
    if block_plausible(l, r, una, nxt) {
        board_merge(
            s,
            if l.lt(una) {
                una
            } else {
                l
            },
            r,
        )
    } else {
        (s, false)
    }
}

/// The scoreboard after the SACK blocks of one ACK, and whether any of them
/// told anything new.
pub open spec fn board_ingest(
    s: Seq<(SeqNr, SeqNr)>,
    blocks: Seq<(u32, u32)>,
    una: SeqNr,
    nxt: SeqNr,
) -> (Seq<(SeqNr, SeqNr)>, bool)
    decreases blocks.len(),
{
    if blocks.len() == 0 {
        (s, false)
    } else {
        let (t, before) = board_ingest(s, blocks.drop_last(), una, nxt);
        let (u, now) = board_ingest_one(t, blocks.last(), una, nxt);
        (u, before || now)
    }
}

/// The scoreboard once everything below `una` is cumulatively acknowledged.
pub open spec fn board_trim(s: Seq<(SeqNr, SeqNr)>, una: SeqNr) -> Seq<(SeqNr, SeqNr)> {
    s.filter(|r: (SeqNr, SeqNr)| r.1.gt(una)).map_values(
        |r: (SeqNr, SeqNr)|
            if r.0.lt(una) {
                (una, r.1)
            } else {
                r
            },
    )
}

/// Number of bytes in the ranges.
pub open spec fn board_total(s: Seq<(SeqNr, SeqNr)>) -> nat
    decreases s.len(),
{
    if s.len() == 0 {
        0
    } else {
        board_total(s.drop_last()) + s.last().1.since(s.last().0) as nat
    }
}

/// The end of the last range.
pub open spec fn board_high(s: Seq<(SeqNr, SeqNr)>) -> Option<SeqNr> {
    if s.len() == 0 {
        None
    } else {
        Some(s.last().1)
    }
}

/// The first position at or after `at` that no range holds, and how far it is
/// from there to the next range; none if there is no next range.
pub open spec fn board_gap(s: Seq<(SeqNr, SeqNr)>, at: SeqNr) -> Option<(SeqNr, u32)>
    decreases s.len(),
{
    if s.len() == 0 {
        None
    } else if at.lt(s[0].0) {
        Some((at, s[0].0.since(at)))
    } else {
        board_gap(
            s.drop_first(),
            if at.lt(s[0].1) {
                s[0].1
            } else {
                at
            },
        )
    }
}

/// The first hole at or after `from`, below the end of the last range.
pub open spec fn board_next_hole(s: Seq<(SeqNr, SeqNr)>, from: SeqNr) -> Option<(SeqNr, u32)> {
    match board_high(s) {
        None => None,
        Some(high) => if from.ge(high) {
            None
        } else {
            board_gap(s, from)
        },
    }
}

proof fn lemma_before_is(s: Seq<(SeqNr, SeqNr)>, l: SeqNr, a: int)
    requires
        0 <= a <= s.len(),
        forall|i: int| 0 <= i < a ==> (#[trigger] s[i]).1.lt(l),
        a < s.len() ==> !s[a].1.lt(l),
    ensures
        board_before(s, l) == a,
    decreases s.len(),
{
    if a > 0 {
        assert(forall|i: int| 0 <= i < a - 1 ==> s.drop_first()[i] == s[i + 1]);
        lemma_before_is(s.drop_first(), l, a - 1);
    }
}

proof fn lemma_through_is(s: Seq<(SeqNr, SeqNr)>, r: SeqNr, b: int)
    requires
        0 <= b <= s.len(),
        forall|i: int| 0 <= i < b ==> !r.lt((#[trigger] s[i]).0),
        b < s.len() ==> r.lt(s[b].0),
    ensures
        board_through(s, r) == b,
    decreases s.len(),
{
    if b > 0 {
        assert(forall|i: int| 0 <= i < b - 1 ==> s.drop_first()[i] == s[i + 1]);
        lemma_through_is(s.drop_first(), r, b - 1);
    }
}

proof fn lemma_before_props(s: Seq<(SeqNr, SeqNr)>, l: SeqNr)
    ensures
        board_before(s, l) <= s.len(),
        forall|i: int| 0 <= i < board_before(s, l) ==> (#[trigger] s[i]).1.lt(l),
        board_before(s, l) < s.len() ==> !s[board_before(s, l) as int].1.lt(l),
    decreases s.len(),
{
    if s.len() > 0 && s[0].1.lt(l) {
        let t = s.drop_first();
        lemma_before_props(t, l);
        assert forall|i: int| 0 <= i < board_before(s, l) implies (#[trigger] s[i]).1.lt(l) by {
            if i > 0 {
                assert(t[i - 1] == s[i]);
            }
        }
    }
}

proof fn lemma_through_props(s: Seq<(SeqNr, SeqNr)>, r: SeqNr)
    ensures
        board_through(s, r) <= s.len(),
        forall|i: int| 0 <= i < board_through(s, r) ==> !r.lt((#[trigger] s[i]).0),
        board_through(s, r) < s.len() ==> r.lt(s[board_through(s, r) as int].0),
    decreases s.len(),
{
    if s.len() > 0 && !r.lt(s[0].0) {
        let t = s.drop_first();
        lemma_through_props(t, r);
        assert forall|i: int| 0 <= i < board_through(s, r) implies !r.lt((#[trigger] s[i]).0) by {
            if i > 0 {
                assert(t[i - 1] == s[i]);
            }
        }
    }
}

proof fn lemma_merge_valid(s: Seq<(SeqNr, SeqNr)>, l: SeqNr, r: SeqNr, una: SeqNr, nxt: SeqNr)
    requires
        board_valid(s, una, nxt),
        una.distance_to(l) < una.distance_to(r) <= una.distance_to(nxt),
    ensures
        board_valid(board_merge(s, l, r).0, una, nxt),
{
    if board_merge(s, l, r).1 {
        lemma_before_props(s, l);
        lemma_through_props(s, r);
        let a = board_before(s, l) as int;
        let b = board_through(s, r) as int;
        if a > b {
            assert(r.lt(s[b].0) && s[b].1.lt(l));
        }
        let m = board_merge(s, l, r).0;
        assert forall|i: int| 0 <= i < m.len() implies una.distance_to((#[trigger] m[i]).0)
            < una.distance_to(m[i].1) <= una.distance_to(nxt) by {
            if i < a {
                assert(m[i] == s[i]);
            } else if i > a {
                assert(m[i] == s[i - a - 1 + b]);
            }
        }
        assert forall|i: int, j: int| 0 <= i < j < m.len() implies una.distance_to(
            (#[trigger] m[i]).1,
        ) < una.distance_to((#[trigger] m[j]).0) by {
            if i < a {
                assert(m[i] == s[i]);
            }
            if j < a {
                assert(m[j] == s[j]);
            }
            if i > a {
                assert(m[i] == s[i - a - 1 + b]);
            }
            if j > a {
                assert(m[j] == s[j - a - 1 + b]);
            }
        }
    }
}

proof fn lemma_ingest_one_valid(
    s: Seq<(SeqNr, SeqNr)>,
    block: (u32, u32),
    una: SeqNr,
    nxt: SeqNr,
)
    requires
        board_valid(s, una, nxt),
    ensures
        board_valid(board_ingest_one(s, block, una, nxt).0, una, nxt),
{
    let l = SeqNr(block.0);
    let r = SeqNr(block.1);
    if block_plausible(l, r, una, nxt) {
        let m = if l.lt(una) {
            una
        } else {
            l
        };
        lemma_merge_valid(s, m, r, una, nxt);
    }
}

/// Whatever blocks a peer sends, the scoreboard stays sorted, disjoint and
/// between SND.UNA and SND.NXT.
pub proof fn ingest_keeps_board_valid(
    s: Seq<(SeqNr, SeqNr)>,
    blocks: Seq<(u32, u32)>,
    una: SeqNr,
    nxt: SeqNr,
)
    requires
        board_valid(s, una, nxt),
    ensures
        board_valid(board_ingest(s, blocks, una, nxt).0, una, nxt),
    decreases blocks.len(),
{
    if blocks.len() > 0 {
        ingest_keeps_board_valid(s, blocks.drop_last(), una, nxt);
        lemma_ingest_one_valid(
            board_ingest(s, blocks.drop_last(), una, nxt).0,
            blocks.last(),
            una,
            nxt,
        );
    }
}

/// An advance of the cumulative point inside the window keeps the scoreboard
/// valid for the new window.
pub proof fn trim_keeps_board_valid(
    s: Seq<(SeqNr, SeqNr)>,
    una: SeqNr,
    ack: SeqNr,
    nxt: SeqNr,
)
    requires
        board_valid(s, una, nxt),
        una.distance_to(ack) <= una.distance_to(nxt),
    ensures
        board_valid(board_trim(s, ack), ack, nxt),
        board_trim(s, ack).len() <= s.len(),
        board_trim(s, ack).len() > 0 ==> s.len() > 0 && board_trim(s, ack).last().1
            == s.last().1,
    decreases s.len(),
{
    reveal(Seq::filter);
    let keep = |r: (SeqNr, SeqNr)| r.1.gt(ack);
    let cut = |r: (SeqNr, SeqNr)|
        if r.0.lt(ack) {
            (ack, r.1)
        } else {
            r
        };
    if s.len() == 0 {
        assert(board_trim(s, ack) =~= Seq::empty());
    } else {
        let p = s.drop_last();
        let x = s.last();
        assert(board_valid(p, una, nxt));
        trim_keeps_board_valid(p, una, ack, nxt);
        let t = board_trim(p, ack);
        if keep(x) {
            assert(board_trim(s, ack) =~= t.push(cut(x)));
            let u = t.push(cut(x));
            if p.len() > 0 {
                assert(p.last() == s[s.len() - 2]);
            }
            assert forall|i: int, j: int| 0 <= i < j < u.len() implies ack.distance_to(
                (#[trigger] u[i]).1,
            ) < ack.distance_to((#[trigger] u[j]).0) by {
                if j == t.len() {
                    assert(u[i] == t[i]);
                    assert(ack.distance_to(t[i].1) <= ack.distance_to(t.last().1)) by {
                        if i < t.len() - 1 {
                            assert(ack.distance_to(t[i].1) < ack.distance_to(
                                t[t.len() - 1].0,
                            ));
                        }
                    }
                } else {
                    assert(u[i] == t[i] && u[j] == t[j]);
                }
            }
            assert forall|i: int| 0 <= i < u.len() implies ack.distance_to((#[trigger] u[i]).0)
                < ack.distance_to(u[i].1) <= ack.distance_to(nxt) by {
                if i < t.len() {
                    assert(u[i] == t[i]);
                }
            }
        } else {
            assert(board_trim(s, ack) =~= t);
            if t.len() > 0 {
                assert(p.last() == s[s.len() - 2]);
                assert(ack.distance_to(t.last().1) <= ack.distance_to(nxt));
                assert(ack.distance_to(t.last().0) < ack.distance_to(t.last().1));
                assert(una.distance_to(p.last().1) < una.distance_to(x.0));
                assert(false);
            }
        }
    }
}

/// The ranges together hold no more bytes than are outstanding.
pub proof fn sacked_bytes_are_outstanding(s: Seq<(SeqNr, SeqNr)>, una: SeqNr, nxt: SeqNr)
    requires
        board_valid(s, una, nxt),
    ensures
        board_total(s) <= una.distance_to(nxt),
        s.len() > 0 ==> board_total(s) <= una.distance_to(s.last().1),
    decreases s.len(),
{
    if s.len() > 0 {
        let p = s.drop_last();
        assert(board_valid(p, una, nxt));
        sacked_bytes_are_outstanding(p, una, nxt);
        if p.len() > 0 {
            assert(una.distance_to(s[s.len() - 2].1) < una.distance_to(s[s.len() - 1].0));
        }
    }
}

/// Whether a sequence number lies in one of the ranges.
pub open spec fn board_covers(s: Seq<(SeqNr, SeqNr)>, una: SeqNr, x: SeqNr) -> bool {
    exists|i: int|
        0 <= i < s.len() && una.distance_to((#[trigger] s[i]).0) <= una.distance_to(x)
            < una.distance_to(s[i].1)
}

proof fn lemma_total_split(s: Seq<(SeqNr, SeqNr)>, k: int)
    requires
        0 <= k <= s.len(),
    ensures
        board_total(s) == board_total(s.take(k)) + board_total(s.skip(k)),
    decreases s.len() - k,
{
    if k == s.len() {
        assert(s.take(k) =~= s);
        assert(s.skip(k) =~= Seq::empty());
    } else {
        lemma_total_split(s.drop_last(), k);
        assert(s.drop_last().take(k) =~= s.take(k));
        assert(s.drop_last().skip(k) =~= s.skip(k).drop_last());
        assert(s.skip(k).last() == s.last());
    }
}

/// Ranges that are in order hold at most what lies between the first start and
/// the last end, and less if they are several.
proof fn lemma_total_span(s: Seq<(SeqNr, SeqNr)>, una: SeqNr)
    requires
        s.len() > 0,
        forall|i: int|
            0 <= i < s.len() ==> una.distance_to((#[trigger] s[i]).0) < una.distance_to(s[i].1),
        forall|i: int, j: int|
            0 <= i < j < s.len() ==> una.distance_to((#[trigger] s[i]).1) < una.distance_to(
                (#[trigger] s[j]).0,
            ),
    ensures
        ({
            let span = una.distance_to(s.last().1) - una.distance_to(s[0].0);
            board_total(s) <= span && (s.len() > 1 ==> board_total(s) < span)
        }),
    decreases s.len(),
{
    let p = s.drop_last();
    if p.len() > 0 {
        assert forall|i: int| 0 <= i < p.len() implies una.distance_to((#[trigger] p[i]).0)
            < una.distance_to(p[i].1) by {
            assert(p[i] == s[i]);
        }
        assert forall|i: int, j: int| 0 <= i < j < p.len() implies una.distance_to(
            (#[trigger] p[i]).1,
        ) < una.distance_to((#[trigger] p[j]).0) by {
            assert(p[i] == s[i] && p[j] == s[j]);
        }
        lemma_total_span(p, una);
        assert(una.distance_to(s[s.len() - 2].1) < una.distance_to(s[s.len() - 1].0));
    } else {
        assert(board_total(p) == 0);
    }
    assert(una.distance_to(s[s.len() - 1].0) < una.distance_to(s[s.len() - 1].1));
}

/// The ranges before, at and behind the merged one add up.
proof fn lemma_merged_total(s: Seq<(SeqNr, SeqNr)>, a: int, b: int, new: (SeqNr, SeqNr))
    requires
        0 <= a <= b <= s.len(),
    ensures
        board_total(s.take(a).push(new) + s.skip(b)) - board_total(s) == new.1.since(new.0)
            - board_total(s.subrange(a, b)),
{
    let m = s.take(a).push(new) + s.skip(b);
    lemma_total_split(s, a);
    lemma_total_split(s.skip(a), b - a);
    assert(s.skip(a).take(b - a) =~= s.subrange(a, b));
    assert(s.skip(a).skip(b - a) =~= s.skip(b));
    lemma_total_split(m, a + 1);
    assert(m.take(a + 1) =~= s.take(a).push(new));
    assert(m.skip(a + 1) =~= s.skip(b));
    assert(s.take(a).push(new).drop_last() =~= s.take(a));
    assert(s.take(a).push(new).last() == new);
}

proof fn lemma_merge_grows(s: Seq<(SeqNr, SeqNr)>, l: SeqNr, r: SeqNr, una: SeqNr, nxt: SeqNr)
    requires
        board_valid(s, una, nxt),
        una.distance_to(l) < una.distance_to(r) <= una.distance_to(nxt),
        board_merge(s, l, r).1,
    ensures
        board_total(board_merge(s, l, r).0) > board_total(s),
{
    lemma_before_props(s, l);
    lemma_through_props(s, r);
    let a = board_before(s, l) as int;
    let b = board_through(s, r) as int;
    if a > b {
        assert(r.lt(s[b].0) && s[b].1.lt(l));
    }
    let m = board_merge(s, l, r).0;
    let new = m[a];
    let mid = s.subrange(a, b);
    lemma_merged_total(s, a, b, new);
    if a < b {
        assert(una.distance_to(s[a].0) < una.distance_to(s[a].1) <= una.distance_to(nxt));
        assert(una.distance_to(s[b - 1].0) < una.distance_to(s[b - 1].1) <= una.distance_to(nxt));
        assert forall|i: int| 0 <= i < mid.len() implies una.distance_to((#[trigger] mid[i]).0)
            < una.distance_to(mid[i].1) by {
            assert(mid[i] == s[a + i]);
        }
        assert forall|i: int, j: int| 0 <= i < j < mid.len() implies una.distance_to(
            (#[trigger] mid[i]).1,
        ) < una.distance_to((#[trigger] mid[j]).0) by {
            assert(mid[i] == s[a + i] && mid[j] == s[a + j]);
        }
        lemma_total_span(mid, una);
        assert(mid[0] == s[a] && mid.last() == s[b - 1]);
        assert(mid.len() == b - a);
        lemma_span_grows(s[a].0, s[b - 1].1, l, r, una, nxt);
        if b == a + 1 {
            assert(!(s[a].0.le(l) && r.le(s[a].1)));
        }
    } else {
        assert(mid =~= Seq::empty());
        lemma_span_grows(l, r, l, r, una, nxt);
    }
}

/// The union of two overlapping spans is as long as either, and longer than the
/// first unless that holds the second.
proof fn lemma_span_grows(x: SeqNr, y: SeqNr, l: SeqNr, r: SeqNr, una: SeqNr, nxt: SeqNr)
    requires
        una.distance_to(nxt) < half_space(),
        una.distance_to(x) < una.distance_to(y) <= una.distance_to(nxt),
        una.distance_to(l) < una.distance_to(r) <= una.distance_to(nxt),
    ensures
        ({
            let n = r.max(y).since(l.min(x));
            let span = una.distance_to(y) - una.distance_to(x);
            &&& n >= span
            &&& n > 0
            &&& !(x.le(l) && r.le(y)) ==> n > span
        }),
{
}

proof fn lemma_merge_covers(s: Seq<(SeqNr, SeqNr)>, l: SeqNr, r: SeqNr, una: SeqNr, nxt: SeqNr)
    requires
        board_valid(s, una, nxt),
        una.distance_to(l) < una.distance_to(r) <= una.distance_to(nxt),
        board_merge(s, l, r).1,
    ensures
        forall|x: SeqNr| #[trigger]
            board_covers(s, una, x) ==> board_covers(board_merge(s, l, r).0, una, x),
{
    lemma_before_props(s, l);
    lemma_through_props(s, r);
    let a = board_before(s, l) as int;
    let b = board_through(s, r) as int;
    if a > b {
        assert(r.lt(s[b].0) && s[b].1.lt(l));
    }
    let m = board_merge(s, l, r).0;
    assert forall|x: SeqNr| #[trigger] board_covers(s, una, x) implies board_covers(m, una, x) by {
        let i = choose|i: int|
            0 <= i < s.len() && una.distance_to((#[trigger] s[i]).0) <= una.distance_to(x)
                < una.distance_to(s[i].1);
        if i < a {
            assert(m[i] == s[i]);
        } else if i >= b {
            assert(m[i - b + a + 1] == s[i]);
        } else {
            if a < i {
                assert(una.distance_to(s[a].1) < una.distance_to(s[i].0));
            }
            if i < b - 1 {
                assert(una.distance_to(s[i].1) < una.distance_to(s[b - 1].0));
            }
            assert(una.distance_to(s[a].0) < una.distance_to(s[a].1));
            assert(una.distance_to(s[b - 1].1) <= una.distance_to(nxt));
            assert(una.distance_to(m[a].0) <= una.distance_to(x) < una.distance_to(m[a].1));
        }
    }
}

/// SACK blocks tell something new exactly if more bytes are known to be
/// received afterwards; otherwise nothing changes. What was known stays known.
pub proof fn ingest_reports_what_is_learned(
    s: Seq<(SeqNr, SeqNr)>,
    blocks: Seq<(u32, u32)>,
    una: SeqNr,
    nxt: SeqNr,
)
    requires
        board_valid(s, una, nxt),
    ensures
        ({
            let (t, learned) = board_ingest(s, blocks, una, nxt);
            &&& learned <==> board_total(t) > board_total(s)
            &&& !learned ==> t == s
            &&& board_valid(t, una, nxt)
            &&& forall|x: SeqNr| #[trigger] board_covers(s, una, x) ==> board_covers(t, una, x)
        }),
    decreases blocks.len(),
{
    if blocks.len() > 0 {
        let init = blocks.drop_last();
        ingest_reports_what_is_learned(s, init, una, nxt);
        ingest_keeps_board_valid(s, blocks, una, nxt);
        let t = board_ingest(s, init, una, nxt).0;
        let l = SeqNr(blocks.last().0);
        let r = SeqNr(blocks.last().1);
        if block_plausible(l, r, una, nxt) {
            let m = if l.lt(una) {
                una
            } else {
                l
            };
            if board_merge(t, m, r).1 {
                lemma_merge_grows(t, m, r, una, nxt);
                lemma_merge_covers(t, m, r, una, nxt);
            }
        }
    }
}

/// A hole is not empty, lies at or after the place it was asked for, overlaps
/// no range, and ends where a range starts.
pub proof fn holes_lie_between_ranges(
    s: Seq<(SeqNr, SeqNr)>,
    from: SeqNr,
    una: SeqNr,
    nxt: SeqNr,
)
    requires
        board_valid(s, una, nxt),
        una.distance_to(from) <= una.distance_to(nxt),
        board_gap(s, from) is Some,
    ensures
        ({
            let (h, n) = board_gap(s, from)->0;
            &&& n > 0
            &&& una.distance_to(from) <= una.distance_to(h)
            &&& una.distance_to(h) + n <= una.distance_to(nxt)
            &&& exists|i: int| 0 <= i < s.len() && (#[trigger] s[i]).0 == h.add(n)
            &&& forall|i: int|
                0 <= i < s.len() ==> una.distance_to((#[trigger] s[i]).1) <= una.distance_to(h)
                    || una.distance_to(h) + n <= una.distance_to(s[i].0)
        }),
    decreases s.len(),
{
    let (h, n) = board_gap(s, from)->0;
    if from.lt(s[0].0) {
        assert(s[0].0 == h.add(n));
        assert forall|i: int| 0 <= i < s.len() implies una.distance_to((#[trigger] s[i]).1)
            <= una.distance_to(h) || una.distance_to(h) + n <= una.distance_to(s[i].0) by {
            if i > 0 {
                assert(una.distance_to(s[0].1) < una.distance_to(s[i].0));
            }
        }
    } else {
        let at = if from.lt(s[0].1) {
            s[0].1
        } else {
            from
        };
        let t = s.drop_first();
        assert(forall|i: int| 0 <= i < t.len() ==> t[i] == s[i + 1]);
        assert(board_valid(t, una, nxt));
        holes_lie_between_ranges(t, at, una, nxt);
        let k = choose|k: int| 0 <= k < t.len() && (#[trigger] t[k]).0 == h.add(n);
        assert(s[k + 1].0 == h.add(n));
        assert forall|i: int| 0 <= i < s.len() implies una.distance_to((#[trigger] s[i]).1)
            <= una.distance_to(h) || una.distance_to(h) + n <= una.distance_to(s[i].0) by {
            if i > 0 {
                assert(t[i - 1] == s[i]);
            }
        }
    }
}

impl View for SackScoreboard {
    type V = Seq<(SeqNr, SeqNr)>;

    closed spec fn view(&self) -> Seq<(SeqNr, SeqNr)> {
        self.ranges@
    }
}

impl Default for SackScoreboard {
    fn default() -> (r: Self)
        ensures
            r.wf(),
            r@ == Seq::<(SeqNr, SeqNr)>::empty(),
    {
        Self::new()
    }
}

impl SackScoreboard {
    /// Well-formedness of the range list.
    pub closed spec fn wf(&self) -> bool {
        self.ranges.wf()
    }

    /// Empty scoreboard.
    pub fn new() -> (r: Self)
        ensures
            r.wf(),
            r@ == Seq::<(SeqNr, SeqNr)>::empty(),
    {
        SackScoreboard { ranges: BoundedVec::new() }
    }

    /// Ingest the SACK blocks of one ACK. Returns true if any *new* range
    /// was learned (used for duplicate-ACK accounting per RFC 6675
    /// section 2).
    pub fn ingest(&mut self, blocks: &[(u32, u32)], snd_una: SeqNr, snd_nxt: SeqNr) -> (learned:
        bool)
        requires
            old(self).wf(),
            board_valid(old(self)@, snd_una, snd_nxt),
        ensures
            final(self).wf(),
            (final(self)@, learned) == board_ingest(old(self)@, blocks@, snd_una, snd_nxt),
            board_valid(final(self)@, snd_una, snd_nxt),
    {
        let mut learned = false;
        let mut i: usize = 0;
        while i < blocks.len()
            invariant
                i <= blocks@.len(),
                self.wf(),
                board_valid(self@, snd_una, snd_nxt),
                (self@, learned) == board_ingest(
                    old(self)@,
                    blocks@.take(i as int),
                    snd_una,
                    snd_nxt,
                ),
            decreases blocks@.len() - i,
        {
            let (bl, br) = blocks[i];
            let l = SeqNr(bl);
            let r = SeqNr(br);
            proof {
                lemma_ingest_one_valid(self@, blocks@[i as int], snd_una, snd_nxt);
                assert(blocks@.take(i + 1).drop_last() =~= blocks@.take(i as int));
            }
            if l.lt(r) && snd_una.lt(r) && r.le(snd_nxt) && snd_una.sub(0x10_0000).le(l) {
                let from = if l.lt(snd_una) {
                    snd_una
                } else {
                    l
                };
                let now = self.merge(from, r);
                learned = learned || now;
            }
            i += 1;
        }
        assert(blocks@.take(i as int) =~= blocks@);
        learned
    }

    /// Merge one validated range; true if it added previously unknown bytes.
    fn merge(&mut self, l: SeqNr, r: SeqNr) -> (learned: bool)
        requires
            old(self).wf(),
        ensures
            final(self).wf(),
            (final(self)@, learned) == board_merge(old(self)@, l, r),
    {
        let n: usize = self.ranges.len();
        let mut k: usize = 0;
        while k < n
            invariant
                k <= n == self.ranges@.len(),
                *self == *old(self),
                self.ranges.wf(),
                forall|i: int|
                    0 <= i < k ==> !((#[trigger] self.ranges@[i]).0.le(l) && r.le(
                        self.ranges@[i].1,
                    )),
            decreases n - k,
        {
            let (s, e) = self.ranges.get(k);
            if s.le(l) && r.le(e) {
                assert(self@[k as int].0.le(l));
                return false;
            }
            k += 1;
        }
        let mut a: usize = 0;
        while a < n && self.ranges.get(a).1.lt(l)
            invariant
                a <= n == self.ranges@.len(),
                self.ranges.wf(),
                forall|i: int| 0 <= i < a ==> (#[trigger] self.ranges@[i]).1.lt(l),
            ensures
                a < n ==> !self.ranges@[a as int].1.lt(l),
            decreases n - a,
        {
            a += 1;
        }
        let mut b: usize = 0;
        while b < n && !r.lt(self.ranges.get(b).0)
            invariant
                b <= n == self.ranges@.len(),
                self.ranges.wf(),
                forall|i: int| 0 <= i < b ==> !r.lt((#[trigger] self.ranges@[i]).0),
            ensures
                b < n ==> r.lt(self.ranges@[b as int].0),
            decreases n - b,
        {
            b += 1;
        }
        proof {
            lemma_before_is(self.ranges@, l, a as int);
            lemma_through_is(self.ranges@, r, b as int);
            self.ranges.lemma_len_bounded();
        }
        let new = if a < b {
            (l.min(self.ranges.get(a).0), r.max(self.ranges.get(b - 1).1))
        } else {
            (l, r)
        };
        if a + 1 + (n - b) > MAX_SACK_RANGES {
            // Bounded state: ignore the new information rather than grow.
            return false;
        }
        let ghost all = self.ranges@;
        let mut merged: BoundedVec<(SeqNr, SeqNr), MAX_SACK_RANGES> = BoundedVec::new();
        let mut i: usize = 0;
        while i < a
            invariant
                i <= a <= n == self.ranges@.len(),
                a < MAX_SACK_RANGES,
                *self == *old(self),
                all == self.ranges@,
                self.ranges.wf(),
                merged.wf(),
                merged@ == all.take(i as int),
            decreases a - i,
        {
            let _ = merged.push(self.ranges.get(i));
            i += 1;
            assert(merged@ =~= all.take(i as int));
        }
        let _ = merged.push(new);
        assert(merged@ =~= all.take(a as int).push(new) + all.subrange(b as int, b as int));
        let mut j: usize = b;
        while j < n
            invariant
                b <= j <= n == self.ranges@.len(),
                a + 1 + (n - b) <= MAX_SACK_RANGES,
                a <= n,
                *self == *old(self),
                all == self.ranges@,
                self.ranges.wf(),
                merged.wf(),
                merged@ == all.take(a as int).push(new) + all.subrange(b as int, j as int),
            decreases n - j,
        {
            let _ = merged.push(self.ranges.get(j));
            j += 1;
            assert(merged@ =~= all.take(a as int).push(new) + all.subrange(b as int, j as int));
        }
        assert(all.subrange(b as int, n as int) =~= all.skip(b as int));
        self.ranges = merged;
        true
    }

    /// Cumulative ACK advanced: discard ranges at or below `snd_una`.
    pub fn on_ack_advance(&mut self, snd_una: SeqNr)
        requires
            old(self).wf(),
        ensures
            final(self).wf(),
            final(self)@ == board_trim(old(self)@, snd_una),
    {
        let keep = |r: &(SeqNr, SeqNr)| -> (b: bool)
            ensures
                b == r.1.gt(snd_una),
            { r.1.gt(snd_una) };
        let ghost p = |r: (SeqNr, SeqNr)| r.1.gt(snd_una);
        self.ranges.retain(keep);
        let ghost kept = old(self)@.filter(p);
        assert(self.ranges@ == kept);
        let mut k: usize = 0;
        while k < self.ranges.len()
            invariant
                k <= self.ranges@.len() == kept.len(),
                self.ranges.wf(),
                forall|i: int| k <= i < kept.len() ==> #[trigger] self.ranges@[i] == kept[i],
                forall|i: int|
                    0 <= i < k ==> #[trigger] self.ranges@[i] == if kept[i].0.lt(snd_una) {
                        (snd_una, kept[i].1)
                    } else {
                        kept[i]
                    },
            decreases kept.len() - k,
        {
            let (s, e) = self.ranges.get(k);
            if s.lt(snd_una) {
                self.ranges.set(k, (snd_una, e));
            }
            k += 1;
        }
        assert(self@ =~= board_trim(old(self)@, snd_una));
    }

    /// Forget everything (on RTO, per RFC 2018 section 8 reneging caution).
    pub fn clear(&mut self)
        ensures
            final(self).wf(),
            final(self)@ == Seq::<(SeqNr, SeqNr)>::empty(),
    {
        self.ranges.clear();
    }

    /// Total SACKed bytes (for the RFC 6675 pipe estimate).
    pub fn sacked_bytes(&self) -> (r: u32)
        requires
            self.wf(),
            board_total(self@) <= u32::MAX,
        ensures
            r == board_total(self@),
    {
        let mut total: u32 = 0;
        let mut i: usize = 0;
        while i < self.ranges.len()
            invariant
                i <= self.ranges@.len(),
                self.ranges.wf(),
                self@ == self.ranges@,
                board_total(self@) <= u32::MAX,
                total == board_total(self@.take(i as int)),
            decreases self.ranges@.len() - i,
        {
            let (s, e) = self.ranges.get(i);
            proof {
                assert(self@.take(i + 1).drop_last() =~= self@.take(i as int));
                lemma_total_monotone(self@, i + 1);
            }
            total = total + e.since(s);
            i += 1;
        }
        assert(self@.take(i as int) =~= self@);
        total
    }

    /// Highest SACKed sequence number, if any.
    pub fn high_sacked(&self) -> (r: Option<SeqNr>)
        requires
            self.wf(),
        ensures
            r == board_high(self@),
    {
        let n: usize = self.ranges.len();
        if n == 0 {
            None
        } else {
            Some(self.ranges.get(n - 1).1)
        }
    }

    /// True if `[seq, seq+len)` is entirely SACKed.
    pub fn is_sacked(&self, seq: SeqNr, len: u32) -> (r: bool)
        requires
            self.wf(),
        ensures
            r == board_contains(self@, seq, seq.add(len)),
    {
        let end = seq.add(len);
        let mut i: usize = 0;
        while i < self.ranges.len()
            invariant
                i <= self.ranges@.len(),
                self.ranges.wf(),
                self@ == self.ranges@,
                end == seq.add(len),
                forall|j: int|
                    0 <= j < i ==> !((#[trigger] self@[j]).0.le(seq) && end.le(self@[j].1)),
            decreases self.ranges@.len() - i,
        {
            let (s, e) = self.ranges.get(i);
            if s.le(seq) && end.le(e) {
                assert(self@[i as int].0.le(seq));
                return true;
            }
            i += 1;
        }
        false
    }

    /// First hole at or after `from`, strictly below `high_sacked`:
    /// `(start, max_len)` where `max_len` runs to the next SACKed range.
    /// Holes below the highest SACK are the retransmission candidates of
    /// SACK-based recovery (RFC 6675 section 4 NextSeg rule 1, simplified).
    pub fn next_hole(&self, from: SeqNr) -> (r: Option<(SeqNr, u32)>)
        requires
            self.wf(),
        ensures
            r == board_next_hole(self@, from),
    {
        match self.high_sacked() {
            None => None,
            Some(high) => {
                if from.ge(high) {
                    return None;
                }
                let mut at = from;
                let mut i: usize = 0;
                assert(self@.skip(0) =~= self@);
                while i < self.ranges.len()
                    invariant
                        i <= self.ranges@.len(),
                        self.ranges.wf(),
                        self@ == self.ranges@,
                        board_high(self@) == Some(high),
                        !from.ge(high),
                        board_gap(self@, from) == board_gap(self@.skip(i as int), at),
                    decreases self.ranges@.len() - i,
                {
                    let (s, e) = self.ranges.get(i);
                    assert(self@.skip(i as int).drop_first() =~= self@.skip(i + 1));
                    if at.lt(s) {
                        return Some((at, s.since(at)));
                    }
                    if at.lt(e) {
                        at = e;
                    }
                    i += 1;
                }
                None
            },
        }
    }
}

proof fn lemma_total_monotone(s: Seq<(SeqNr, SeqNr)>, i: int)
    requires
        0 <= i <= s.len(),
    ensures
        board_total(s.take(i)) <= board_total(s),
    decreases s.len(),
{
    if i < s.len() {
        lemma_total_monotone(s.drop_last(), i);
        assert(s.drop_last().take(i) =~= s.take(i));
    } else {
        assert(s.take(i) =~= s);
    }
}

/// A block of outstanding bytes that the peer reports is known afterwards, and
/// nothing else is learned from it, as long as the board has room for one more
/// range.
pub proof fn reported_blocks_are_known(
    s: Seq<(SeqNr, SeqNr)>,
    l: SeqNr,
    r: SeqNr,
    una: SeqNr,
    nxt: SeqNr,
    x: SeqNr,
)
    requires
        board_valid(s, una, nxt),
        una.distance_to(l) < una.distance_to(r) <= una.distance_to(nxt),
        una.distance_to(nxt) < 0x7000_0000,
        s.len() < 8,
    ensures
        board_covers(board_ingest(s, seq![(l.0, r.0)], una, nxt).0, una, x) <==> board_covers(
            s,
            una,
            x,
        ) || una.distance_to(l) <= una.distance_to(x) < una.distance_to(r),
{
    let one = seq![(l.0, r.0)];
    assert(one.drop_last() =~= Seq::empty());
    assert(one.last() == (l.0, r.0));
    reveal_with_fuel(board_ingest, 2);
    assert(block_plausible(l, r, una, nxt));
    assert(!l.lt(una));
    assert(board_ingest(s, one, una, nxt).0 == board_merge(s, l, r).0);
    if board_contains(s, l, r) {
        let i = choose|i: int| 0 <= i < s.len() && (#[trigger] s[i]).0.le(l) && r.le(s[i].1);
        assert(una.distance_to(s[i].0) <= una.distance_to(l) && una.distance_to(r)
            <= una.distance_to(s[i].1));
    } else {
        lemma_merge_room(s, l, r, una, nxt);
        lemma_merge_covers(s, l, r, una, nxt);
        lemma_merge_covers_the_block(s, l, r, una, nxt, x);
        if board_covers(board_merge(s, l, r).0, una, x) {
            lemma_merge_adds_nothing_else(s, l, r, una, nxt, x);
        }
    }
}

proof fn lemma_merge_room(s: Seq<(SeqNr, SeqNr)>, l: SeqNr, r: SeqNr, una: SeqNr, nxt: SeqNr)
    requires
        board_valid(s, una, nxt),
        una.distance_to(l) < una.distance_to(r) <= una.distance_to(nxt),
        s.len() < 8,
        !board_contains(s, l, r),
    ensures
        board_merge(s, l, r).1,
        board_before(s, l) <= board_through(s, r) <= s.len(),
{
    lemma_before_props(s, l);
    lemma_through_props(s, r);
    let a = board_before(s, l) as int;
    let b = board_through(s, r) as int;
    if a > b {
        assert(r.lt(s[b].0) && s[b].1.lt(l));
        assert(una.distance_to(s[b].0) < una.distance_to(s[b].1));
    }
}

proof fn lemma_merge_covers_the_block(
    s: Seq<(SeqNr, SeqNr)>,
    l: SeqNr,
    r: SeqNr,
    una: SeqNr,
    nxt: SeqNr,
    x: SeqNr,
)
    requires
        board_valid(s, una, nxt),
        una.distance_to(l) < una.distance_to(r) <= una.distance_to(nxt),
        board_merge(s, l, r).1,
        board_before(s, l) <= board_through(s, r) <= s.len(),
    ensures
        una.distance_to(l) <= una.distance_to(x) < una.distance_to(r) ==> board_covers(
            board_merge(s, l, r).0,
            una,
            x,
        ),
{
    let a = board_before(s, l) as int;
    let b = board_through(s, r) as int;
    let m = board_merge(s, l, r).0;
    if a < b {
        assert(una.distance_to(s[a].0) < una.distance_to(s[a].1) <= una.distance_to(nxt));
        assert(una.distance_to(s[b - 1].0) < una.distance_to(s[b - 1].1) <= una.distance_to(nxt));
    }
    assert(una.distance_to(m[a].0) <= una.distance_to(l) && una.distance_to(r)
        <= una.distance_to(m[a].1));
}

proof fn lemma_merge_adds_nothing_else(
    s: Seq<(SeqNr, SeqNr)>,
    l: SeqNr,
    r: SeqNr,
    una: SeqNr,
    nxt: SeqNr,
    x: SeqNr,
)
    requires
        board_valid(s, una, nxt),
        una.distance_to(l) < una.distance_to(r) <= una.distance_to(nxt),
        board_merge(s, l, r).1,
        board_before(s, l) <= board_through(s, r) <= s.len(),
        board_covers(board_merge(s, l, r).0, una, x),
    ensures
        board_covers(s, una, x) || una.distance_to(l) <= una.distance_to(x) < una.distance_to(r),
{
    lemma_before_props(s, l);
    lemma_through_props(s, r);
    let a = board_before(s, l) as int;
    let b = board_through(s, r) as int;
    let m = board_merge(s, l, r).0;
    let i = choose|i: int|
        0 <= i < m.len() && una.distance_to((#[trigger] m[i]).0) <= una.distance_to(x)
            < una.distance_to(m[i].1);
    if i < a {
        assert(m[i] == s[i]);
    } else if i > a {
        assert(m[i] == s[i - a - 1 + b]);
    } else if a < b {
        assert(una.distance_to(s[a].0) < una.distance_to(s[a].1) <= una.distance_to(nxt));
        assert(una.distance_to(s[b - 1].0) < una.distance_to(s[b - 1].1) <= una.distance_to(nxt));
        assert(una.distance_to(l) <= una.distance_to(s[a].1));
        assert(una.distance_to(s[b - 1].0) <= una.distance_to(r));
        if una.distance_to(x) < una.distance_to(l) {
            assert(una.distance_to(s[a].0) <= una.distance_to(x) < una.distance_to(s[a].1));
        } else if una.distance_to(x) >= una.distance_to(r) {
            assert(una.distance_to(s[b - 1].0) <= una.distance_to(x) < una.distance_to(s[b - 1].1));
        }
    }
}

/// The first hole is found: if any byte from `from` on and below the end of the
/// last range is not known to be received, there is a next hole, and it starts
/// no later than that byte.
pub proof fn first_hole_is_found(
    s: Seq<(SeqNr, SeqNr)>,
    from: SeqNr,
    una: SeqNr,
    nxt: SeqNr,
    x: SeqNr,
)
    requires
        board_valid(s, una, nxt),
        s.len() > 0,
        !board_covers(s, una, x),
        una.distance_to(from) <= una.distance_to(x) < una.distance_to(s.last().1),
    ensures
        board_next_hole(s, from) matches Some((h, n)) && una.distance_to(h) <= una.distance_to(x),
{
    assert(una.distance_to(s[s.len() - 1].1) <= una.distance_to(nxt));
    lemma_gap_is_found(s, from, una, nxt, x);
}

proof fn lemma_gap_is_found(
    s: Seq<(SeqNr, SeqNr)>,
    from: SeqNr,
    una: SeqNr,
    nxt: SeqNr,
    x: SeqNr,
)
    requires
        board_valid(s, una, nxt),
        s.len() > 0,
        !board_covers(s, una, x),
        una.distance_to(from) <= una.distance_to(x) < una.distance_to(s.last().1),
    ensures
        board_gap(s, from) matches Some((h, n)) && una.distance_to(h) <= una.distance_to(x),
    decreases s.len(),
{
    assert(una.distance_to(s[s.len() - 1].1) <= una.distance_to(nxt));
    assert(una.distance_to(s[0].0) < una.distance_to(s[0].1) <= una.distance_to(nxt));
    if !from.lt(s[0].0) {
        let at = if from.lt(s[0].1) {
            s[0].1
        } else {
            from
        };
        assert(una.distance_to(s[0].1) <= una.distance_to(x));
        let t = s.drop_first();
        assert(forall|i: int| 0 <= i < t.len() ==> t[i] == s[i + 1]);
        assert(board_valid(t, una, nxt));
        assert(t.last() == s.last());
        assert(!board_covers(t, una, x)) by {
            if board_covers(t, una, x) {
                let i = choose|i: int|
                    0 <= i < t.len() && una.distance_to((#[trigger] t[i]).0) <= una.distance_to(x)
                        < una.distance_to(t[i].1);
                assert(s[i + 1] == t[i]);
            }
        }
        lemma_gap_is_found(t, at, una, nxt, x);
    }
}

/// When the cumulative point advances, what is known of the bytes above it
/// stays known, and nothing is added.
pub proof fn advance_keeps_what_is_known(
    s: Seq<(SeqNr, SeqNr)>,
    una: SeqNr,
    ack: SeqNr,
    nxt: SeqNr,
    x: SeqNr,
)
    requires
        board_valid(s, una, nxt),
        una.distance_to(ack) <= una.distance_to(x) <= una.distance_to(nxt),
    ensures
        board_covers(board_trim(s, ack), ack, x) <==> board_covers(s, una, x),
    decreases s.len(),
{
    reveal(Seq::filter);
    let keep = |r: (SeqNr, SeqNr)| r.1.gt(ack);
    let cut = |r: (SeqNr, SeqNr)|
        if r.0.lt(ack) {
            (ack, r.1)
        } else {
            r
        };
    if s.len() == 0 {
        assert(board_trim(s, ack) =~= Seq::empty());
    } else {
        let p = s.drop_last();
        let y = s.last();
        assert(s[s.len() - 1] == y);
        assert(forall|i: int| 0 <= i < p.len() ==> p[i] == s[i]);
        assert(board_valid(p, una, nxt));
        advance_keeps_what_is_known(p, una, ack, nxt, x);
        let t = board_trim(p, ack);
        let u = board_trim(s, ack);
        let here = una.distance_to(y.0) <= una.distance_to(x) < una.distance_to(y.1);
        assert(board_covers(s, una, x) <==> board_covers(p, una, x) || here) by {
            if board_covers(s, una, x) {
                let i = choose|i: int|
                    0 <= i < s.len() && una.distance_to((#[trigger] s[i]).0) <= una.distance_to(x)
                        < una.distance_to(s[i].1);
                if i < p.len() {
                    assert(p[i] == s[i]);
                }
            }
            if board_covers(p, una, x) {
                let i = choose|i: int|
                    0 <= i < p.len() && una.distance_to((#[trigger] p[i]).0) <= una.distance_to(x)
                        < una.distance_to(p[i].1);
                assert(s[i] == p[i]);
            }
        }
        if keep(y) {
            assert(u =~= t.push(cut(y)));
            assert(here <==> ack.distance_to(cut(y).0) <= ack.distance_to(x) < ack.distance_to(
                cut(y).1,
            ));
            if board_covers(u, ack, x) {
                let i = choose|i: int|
                    0 <= i < u.len() && ack.distance_to((#[trigger] u[i]).0) <= ack.distance_to(x)
                        < ack.distance_to(u[i].1);
                if i < t.len() {
                    assert(t[i] == u[i]);
                }
            }
            if board_covers(t, ack, x) {
                let i = choose|i: int|
                    0 <= i < t.len() && ack.distance_to((#[trigger] t[i]).0) <= ack.distance_to(x)
                        < ack.distance_to(t[i].1);
                assert(u[i] == t[i]);
            }
            if here {
                assert(u[t.len() as int] == cut(y));
            }
        } else {
            assert(u =~= t);
            assert(!here);
        }
    }
}

} // verus!
