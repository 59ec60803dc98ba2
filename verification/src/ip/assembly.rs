//! Whole datagrams out of their fragments, whatever the order these come in.
use super::reasm::{
    complete_slot_is_the_datagram, fragments_of_one_datagram_agree,
    fresh_slot_agrees, hole_around, hole_rest, lemma_bounded_wf, lemma_hole_around_props,
    lemma_offered_wf, lemma_slot_free_bound, lemma_slot_of_is, pushed,
    push_keeps_invariant, slot_agrees, slot_free, slot_of, slots_wf, ReasmResult, SlotModel,
};
use super::ReasmKey;
use crate::config::{REASM_BUF_SIZE, REASM_MAX_HOLES};
use crate::time::{Duration, Instant};
use vstd::prelude::*;

verus! {

/// Whether these ranges `[start, end)`, in whatever order, cut a datagram of
/// `len` bytes into fragments: they are not empty, do not overlap, cover it, and
/// all but the final one are multiples of 8 bytes long. There are at most as
/// many as can be put together in any order.
pub open spec fn cuts(pieces: Seq<(int, int)>, len: int) -> bool {
    &&& 0 < pieces.len() < REASM_MAX_HOLES
    &&& 0 < len <= REASM_BUF_SIZE
    &&& forall|i: int|
        0 <= i < pieces.len() ==> 0 <= (#[trigger] pieces[i]).0 < pieces[i].1 <= len && (
        pieces[i].1 == len || (pieces[i].1 - pieces[i].0) % 8 == 0)
    &&& forall|i: int, j: int|
        0 <= i < j < pieces.len() ==> (#[trigger] pieces[i]).1 <= (#[trigger] pieces[j]).0
            || pieces[j].1 <= pieces[i].0
    &&& forall|x: int| 0 <= x < len ==> #[trigger] within(pieces, pieces.len() as int, x)
}

/// Whether one of the first `k` ranges holds `x`.
pub open spec fn within(pieces: Seq<(int, int)>, k: int, x: int) -> bool {
    exists|i: int| 0 <= i < k && (#[trigger] pieces[i]).0 <= x < pieces[i].1
}

/// Whether the final fragment is one of the first `k`.
pub open spec fn ended(pieces: Seq<(int, int)>, k: int, len: int) -> bool {
    exists|i: int| 0 <= i < k && (#[trigger] pieces[i]).1 == len
}

/// A slot that the first `k` fragments of datagram `d` went into: exactly their
/// bytes are there.
#[verifier::opaque]
pub open spec fn gathered(s: SlotModel, d: Seq<u8>, pieces: Seq<(int, int)>, k: int) -> bool {
    &&& s.wf()
    &&& s.in_use
    &&& slot_agrees(s, d)
    &&& s.holes.len() <= k + 1
    &&& s.total_len is Some <==> ended(pieces, k, d.len() as int)
    &&& forall|x: int|
        0 <= x < u32::MAX ==> (#[trigger] s.missing(x) <==> if x < d.len() {
            !within(pieces, k, x)
        } else {
            s.total_len is None
        })
}

/// With the length known, exactly what lies below it is missing as before.
proof fn lemma_bounded_missing(s: SlotModel, end: int)
    requires
        s.wf(),
        s.in_use,
        s.total_len is None,
        0 <= end <= REASM_BUF_SIZE,
        forall|x: int| end <= x < u32::MAX ==> #[trigger] s.missing(x),
    ensures
        s.bounded(end) matches Some(b) && {
            &&& b.wf()
            &&& b.in_use
            &&& b.holes.len() <= s.holes.len()
            &&& b.total_len == Some(end as u32)
            &&& forall|x: int| 0 <= x < u32::MAX ==> (#[trigger] b.missing(x) <==> s.missing(x) && x
                < end)
        },
{
    let last = s.holes.len() - 1;
    if s.holes[last].0 > end {
        let x = s.holes[last].0 - 1;
        assert(s.missing(x));
        let j = choose|j: int|
            0 <= j < s.holes.len() && (#[trigger] s.holes[j]).0 <= x < s.holes[j].1;
        if j < last {
            assert(s.holes[j].1 < s.holes[last].0);
        }
    }
    lemma_bounded_wf(s, end);
    let b = s.bounded(end)->0;
    assert forall|x: int| 0 <= x < u32::MAX implies (#[trigger] b.missing(x) <==> s.missing(x) && x
        < end) by {
        if b.missing(x) {
            let j = choose|j: int|
                0 <= j < b.holes.len() && (#[trigger] b.holes[j]).0 <= x < b.holes[j].1;
            if j < last {
                assert(b.holes[j] == s.holes[j]);
                assert(s.holes[j].1 < s.holes[last].0);
            } else {
                assert(s.holes[last].0 <= x < s.holes[last].1);
            }
        }
        if s.missing(x) && x < end {
            let j = choose|j: int|
                0 <= j < s.holes.len() && (#[trigger] s.holes[j]).0 <= x < s.holes[j].1;
            if j < last {
                assert(b.holes[j] == s.holes[j]);
            } else {
                assert(b.holes[last] == (s.holes[last].0, end as u32));
            }
        }
    }
}

/// Bytes that are all missing lie in one hole.
proof fn lemma_in_one_hole(s: SlotModel, offset: int, end: int)
    requires
        s.wf(),
        s.in_use,
        0 <= offset < end < u32::MAX,
        forall|x: int| offset <= x < end ==> #[trigger] s.missing(x),
    ensures
        hole_around(s.holes, offset, end) < s.holes.len(),
{
    lemma_hole_around_props(s.holes, offset, end);
    assert(s.missing(offset));
    let j = choose|j: int|
        0 <= j < s.holes.len() && (#[trigger] s.holes[j]).0 <= offset < s.holes[j].1;
    if s.holes[j].1 < end {
        let x = s.holes[j].1 as int;
        assert(s.missing(x));
        let i = choose|i: int|
            0 <= i < s.holes.len() && (#[trigger] s.holes[i]).0 <= x < s.holes[i].1;
        if j < i {
            assert(s.holes[j].1 < s.holes[i].0);
        } else if i < j {
            assert(s.holes[i].1 < s.holes[j].0);
        }
    }
    assert(s.holes[j].0 <= offset && end <= s.holes[j].1);
}

/// Filling missing bytes makes exactly them not missing any more.
proof fn lemma_filled_missing(s: SlotModel, offset: int, data: Seq<u8>)
    requires
        s.wf(),
        s.in_use,
        data.len() > 0,
        0 <= offset,
        offset + data.len() <= REASM_BUF_SIZE,
        s.holes.len() < REASM_MAX_HOLES,
        forall|x: int| offset <= x < offset + data.len() ==> #[trigger] s.missing(x),
    ensures
        s.filled(offset, data) matches Some(f) && {
            &&& f.holes.len() <= s.holes.len() + 1
            &&& f.total_len == s.total_len
            &&& f.in_use
            &&& f.key == s.key
            &&& forall|x: int| 0 <= x < u32::MAX ==> (#[trigger] f.missing(x) <==> s.missing(x)
                && !(offset <= x < offset + data.len()))
        },
        !s.duplicate(offset, data),
{
    let end = offset + data.len();
    lemma_in_one_hole(s, offset, end);
    lemma_hole_around_props(s.holes, offset, end);
    let i = hole_around(s.holes, offset, end) as int;
    let f = s.filled(offset, data)->0;
    let r = hole_rest(s.holes[i], offset, end);
    let n = r.len() as int;
    let h = f.holes;
    assert(h.len() == s.holes.len() - 1 + n && n <= 2);
    assert(forall|k: int| 0 <= k < i ==> h[k] == s.holes[k]);
    assert(forall|k: int| i <= k < i + n ==> h[k] == r[k - i]);
    assert(forall|k: int| i + n <= k < h.len() ==> h[k] == s.holes[k - n + 1]);
    assert(offset < s.holes[i].1 && s.holes[i].0 < end);
    assert forall|x: int| 0 <= x < u32::MAX implies (#[trigger] f.missing(x) <==> s.missing(x) && !(
    offset <= x < end)) by {
        if s.missing(x) && !(offset <= x < end) {
            let k = choose|k: int|
                0 <= k < s.holes.len() && (#[trigger] s.holes[k]).0 <= x < s.holes[k].1;
            if k < i {
                assert(h[k] == s.holes[k]);
            } else if k > i {
                assert(h[k + n - 1] == s.holes[k]);
            } else if x < offset {
                assert(r[0] == (s.holes[i].0, offset as u32));
                assert(h[i] == r[0]);
            } else {
                assert(r[n - 1] == (end as u32, s.holes[i].1));
                assert(h[i + n - 1] == r[n - 1]);
            }
        }
        if f.missing(x) {
            let k = choose|k: int| 0 <= k < h.len() && (#[trigger] h[k]).0 <= x < h[k].1;
            if k < i {
                assert(h[k] == s.holes[k]);
                assert(s.holes[k].1 < s.holes[i].0);
            } else if k < i + n {
                assert(h[k] == r[k - i]);
                assert(s.holes[i].0 <= x < s.holes[i].1);
            } else {
                assert(h[k] == s.holes[k - n + 1]);
                assert(s.holes[i].1 < s.holes[k - n + 1].0);
            }
        }
    }
}

/// The bytes of one fragment.
pub open spec fn bytes_of(d: Seq<u8>, piece: (int, int)) -> Seq<u8> {
    d.subrange(piece.0, piece.1)
}

/// The next fragment is kept, and completes the datagram exactly if it is the
/// last one to come.
proof fn lemma_gathered_next(s: SlotModel, d: Seq<u8>, pieces: Seq<(int, int)>, k: int)
    requires
        cuts(pieces, d.len() as int),
        0 <= k < pieces.len(),
        gathered(s, d, pieces, k),
    ensures
        ({
            let p = pieces[k];
            let (n, kept) = s.offered(p.0, p.1 != d.len(), bytes_of(d, p));
            &&& gathered(n, d, pieces, k + 1)
            &&& n.key == s.key
            &&& kept == Some(k + 1 == pieces.len())
            &&& n.complete() == (k + 1 == pieces.len())
        }),
{
    reveal(gathered);
    let len = d.len() as int;
    let p = pieces[k];
    let more = p.1 != len;
    let data = bytes_of(d, p);
    assert forall|x: int| p.0 <= x < p.1 implies !#[trigger] within(pieces, k, x) by {
        if within(pieces, k, x) {
            let i = choose|i: int| 0 <= i < k && (#[trigger] pieces[i]).0 <= x < pieces[i].1;
            assert(pieces[i].1 <= pieces[k].0 || pieces[k].1 <= pieces[i].0);
        }
    }
    assert forall|x: int| #[trigger]
        within(pieces, k + 1, x) <==> within(pieces, k, x) || p.0 <= x < p.1 by {
        if within(pieces, k, x) {
            let i = choose|i: int| 0 <= i < k && (#[trigger] pieces[i]).0 <= x < pieces[i].1;
            assert(pieces[i].0 <= x < pieces[i].1);
        }
        if p.0 <= x < p.1 {
            assert(pieces[k].0 <= x < pieces[k].1);
        }
    }
    assert(ended(pieces, k + 1, len) <==> ended(pieces, k, len) || !more) by {
        if ended(pieces, k, len) {
            let i = choose|i: int| 0 <= i < k && (#[trigger] pieces[i]).1 == len;
            assert(pieces[i].1 == len);
        }
        if !more {
            assert(pieces[k].1 == len);
        }
    }
    if !more && ended(pieces, k, len) {
        let i = choose|i: int| 0 <= i < k && (#[trigger] pieces[i]).1 == len;
        assert(pieces[i].1 <= pieces[k].0 || pieces[k].1 <= pieces[i].0);
    }
    fragments_of_one_datagram_agree(s, p.0, more, data, d);
    lemma_offered_wf(s, p.0, more, data);
    let b = if more {
        s
    } else {
        lemma_bounded_missing(s, len);
        s.bounded(len)->0
    };
    lemma_filled_missing(b, p.0, data);
    let f = b.filled(p.0, data)->0;
    assert(s.offered(p.0, more, data) == (f, Some(f.complete())));
    assert(f.complete() == (k + 1 == pieces.len())) by {
        if k + 1 == pieces.len() {
            if f.holes.len() > 0 {
                let x = f.holes[0].0 as int;
                assert(f.holes[0].0 < f.holes[0].1);
                assert(f.missing(x));
                lemma_ended(pieces, len);
                assert(f.total_len is Some);
                assert(within(pieces, pieces.len() as int, x));
            }
            lemma_ended(pieces, len);
        } else {
            let x = pieces[k + 1].0;
            assert(!within(pieces, k + 1, x)) by {
                if within(pieces, k + 1, x) {
                    let i = choose|i: int|
                        0 <= i < k + 1 && (#[trigger] pieces[i]).0 <= x < pieces[i].1;
                    assert(pieces[i].1 <= pieces[k + 1].0 || pieces[k + 1].1 <= pieces[i].0);
                }
            }
            assert(f.missing(x));
        }
    }
}

/// One of the fragments is the final one.
proof fn lemma_ended(pieces: Seq<(int, int)>, len: int)
    requires
        cuts(pieces, len),
    ensures
        ended(pieces, pieces.len() as int, len),
{
    assert(within(pieces, pieces.len() as int, len - 1));
    let i = choose|i: int|
        0 <= i < pieces.len() && (#[trigger] pieces[i]).0 <= len - 1 < pieces[i].1;
    assert(pieces[i].1 == len);
}

/// The slots after the first `k` fragments were pushed, each at its time, and
/// what came back.
pub open spec fn pushed_first(
    slots: Seq<SlotModel>,
    times: Seq<Instant>,
    timeout: Duration,
    key: ReasmKey,
    d: Seq<u8>,
    pieces: Seq<(int, int)>,
    k: nat,
) -> (Seq<SlotModel>, Seq<ReasmResult>)
    decreases k,
{
    if k == 0 {
        (slots, Seq::empty())
    } else {
        let (s, rs) = pushed_first(slots, times, timeout, key, d, pieces, (k - 1) as nat);
        let p = pieces[k - 1];
        let (t, r) = pushed(
            s,
            times[k - 1],
            timeout,
            key,
            p.0 as u32,
            p.1 != d.len(),
            bytes_of(d, p),
        );
        (t, rs.push(r))
    }
}

proof fn lemma_pushed_first(
    slots: Seq<SlotModel>,
    times: Seq<Instant>,
    timeout: Duration,
    key: ReasmKey,
    d: Seq<u8>,
    pieces: Seq<(int, int)>,
    k: nat,
)
    requires
        slots_wf(slots),
        cuts(pieces, d.len() as int),
        0 < k <= pieces.len(),
        times.len() == pieces.len(),
        slot_of(slots, key) >= slots.len(),
        slot_free(slots, times[0]) < slots.len(),
    ensures
        ({
            let i = slot_free(slots, times[0]) as int;
            let (s, rs) = pushed_first(slots, times, timeout, key, d, pieces, k);
            &&& slots_wf(s)
            &&& gathered(s[i], d, pieces, k as int)
            &&& s[i].key == key
            &&& s[i].complete() == (k == pieces.len())
            &&& forall|j: int|
                0 <= j < s.len() && j != i ==> !((#[trigger] s[j]).in_use && s[j].key == key)
            &&& rs.len() == k
            &&& forall|j: int|
                0 <= j < k ==> #[trigger] rs[j] == if j + 1 == pieces.len() {
                    ReasmResult::Complete { slot: i as usize }
                } else {
                    ReasmResult::Pending
                }
        }),
    decreases k,
{
    let i = slot_free(slots, times[0]) as int;
    let (s, rs) = pushed_first(slots, times, timeout, key, d, pieces, (k - 1) as nat);
    let p = pieces[k - 1];
    let data = bytes_of(d, p);
    let more = p.1 != d.len();
    let now = times[k - 1];
    assert(more ==> data.len() % 8 == 0);
    lemma_slot_free_bound(slots, times[0]);
    if k == 1 {
        let fresh = slots[i].started(key, now + timeout);
        fresh_slot_agrees(slots[i], key, now + timeout, d);
        assert(gathered(fresh, d, pieces, 0)) by {
            reveal(gathered);
            assert forall|x: int| 0 <= x < u32::MAX implies #[trigger] fresh.missing(x) by {
                assert(fresh.holes[0] == (0u32, u32::MAX));
            }
        }
        lemma_gathered_next(fresh, d, pieces, 0);
        lemma_no_slot(slots, key);
    } else {
        lemma_pushed_first(slots, times, timeout, key, d, pieces, (k - 1) as nat);
        assert(s[i].in_use) by {
            reveal(gathered);
        }
        lemma_slot_of_is(s, key, i);
        lemma_gathered_next(s[i], d, pieces, k - 1);
    }
    push_keeps_invariant(s, now, timeout, key, p.0 as u32, more, data);
}

proof fn lemma_no_slot(slots: Seq<SlotModel>, key: ReasmKey)
    requires
        slot_of(slots, key) >= slots.len(),
    ensures
        forall|j: int| 0 <= j < slots.len() ==> !((#[trigger] slots[j]).in_use && slots[j].key == key),
    decreases slots.len(),
{
    if slots.len() > 0 {
        lemma_no_slot(slots.drop_first(), key);
        assert forall|j: int| 0 <= j < slots.len() implies !((#[trigger] slots[j]).in_use
            && slots[j].key == key) by {
            if j > 0 {
                assert(slots.drop_first()[j - 1] == slots[j]);
            }
        }
    }
}

/// A datagram whose fragments all arrive is put together, in whatever order they
/// come: as long as a slot was free for the first one and the reassembly is not
/// given up, every fragment but the last to come is pending, the last one
/// completes the datagram, and the slot then holds it, byte for byte, under its
/// key. Once released, the slot holds no complete datagram.
pub proof fn fragments_in_any_order_complete(
    slots: Seq<SlotModel>,
    times: Seq<Instant>,
    timeout: Duration,
    key: ReasmKey,
    d: Seq<u8>,
    pieces: Seq<(int, int)>,
)
    requires
        slots_wf(slots),
        cuts(pieces, d.len() as int),
        times.len() == pieces.len(),
        slot_of(slots, key) >= slots.len(),
        slot_free(slots, times[0]) < slots.len(),
    ensures
        ({
            let i = slot_free(slots, times[0]) as int;
            let n = pieces.len();
            let (s, rs) = pushed_first(slots, times, timeout, key, d, pieces, n);
            &&& rs.len() == n
            &&& forall|j: int| 0 <= j < n - 1 ==> #[trigger] rs[j] is Pending
            &&& rs[n - 1] == (ReasmResult::Complete { slot: i as usize })
            &&& s[i].complete()
            &&& s[i].key == key
            &&& s[i].buf.take(s[i].total_len->0 as int) == d
            &&& !s[i].freed().complete()
        }),
{
    lemma_pushed_first(slots, times, timeout, key, d, pieces, pieces.len());
    let i = slot_free(slots, times[0]) as int;
    let s = pushed_first(slots, times, timeout, key, d, pieces, pieces.len()).0;
    assert(s[i].wf() && slot_agrees(s[i], d)) by {
        reveal(gathered);
    }
    complete_slot_is_the_datagram(s[i], d);
}

} // verus!
