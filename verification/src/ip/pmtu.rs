//! Path-MTU cache (RFC 1191 for IPv4, RFC 8201 for IPv6).
//!
//! Estimates only ever *decrease* in response to ICMP signals and recover by
//! aging out (RFC 1191 section 6.3), so a forged ICMP message can at worst
//! degrade efficiency within fixed floors, never stop traffic.
use super::{IPV4_MIN_PMTU, IPV6_MIN_PMTU};
use crate::time::{Duration, Instant};
use crate::types::IpAddr;
use vstd::prelude::*;

verus! {

/// Seconds for which a lowered estimate is honored before re-probing at link
/// MTU (RFC 1191 section 6.3 suggests 10 minutes).
pub const PMTU_TTL_SECS: u64 = 600;

/// How long a lowered estimate is honored.
pub open spec fn spec_pmtu_ttl() -> Duration {
    Duration { micros: 600_000_000 }
}

/// How long a lowered estimate is honored before re-probing at link MTU.
#[verifier::when_used_as_spec(spec_pmtu_ttl)]
pub fn pmtu_ttl() -> (r: Duration)
    ensures
        r == spec_pmtu_ttl(),
{
    Duration::from_secs(PMTU_TTL_SECS)
}

/// One lowered estimate.
#[derive(Debug, Clone, Copy)]
pub struct Entry {
    /// Destination that it is about.
    pub dst: IpAddr,
    /// The estimate.
    pub mtu: u16,
    /// When it is forgotten.
    pub expires: Instant,
}

/// Fixed-capacity per-destination path-MTU cache.
#[derive(Debug, Clone, Copy)]
pub struct PmtuCache<const N: usize> {
    /// The entries.
    pub entries: [Option<Entry>; N],
}

/// RFC 1191 section 7.1: the largest plateau below `current`, used when an old
/// router reports MTU 0.
pub open spec fn plateau_below(current: u16) -> Option<u16> {
    if current > 32000 {
        Some(32000)
    } else if current > 17914 {
        Some(17914)
    } else if current > 8166 {
        Some(8166)
    } else if current > 4352 {
        Some(4352)
    } else if current > 2002 {
        Some(2002)
    } else if current > 1492 {
        Some(1492)
    } else if current > 1006 {
        Some(1006)
    } else if current > 508 {
        Some(508)
    } else if current > 296 {
        Some(296)
    } else if current > 68 {
        Some(68)
    } else {
        None
    }
}

/// The lowest estimate that a report may lead to for a destination.
pub open spec fn pmtu_floor(dst: IpAddr) -> u16 {
    if dst is V4 {
        IPV4_MIN_PMTU
    } else {
        IPV6_MIN_PMTU
    }
}

/// Whether an entry is a current one for `dst`.
pub open spec fn entry_applies(e: Option<Entry>, now: Instant, dst: IpAddr) -> bool {
    e matches Some(x) && x.dst == dst && x.expires.micros > now.micros
}

/// The path MTU that the entries give: that of the first current entry, never
/// more than the link's.
pub open spec fn path_mtu(entries: Seq<Option<Entry>>, now: Instant, link_mtu: u16, dst: IpAddr) -> u16
    decreases entries.len(),
{
    if entries.len() == 0 {
        link_mtu
    } else if entry_applies(entries[0], now, dst) {
        if entries[0]->0.mtu < link_mtu {
            entries[0]->0.mtu
        } else {
            link_mtu
        }
    } else {
        path_mtu(entries.drop_first(), now, link_mtu, dst)
    }
}

/// The estimate that a report implies, within the floor of the family and the
/// link.
pub open spec fn implied_mtu(current: u16, link_mtu: u16, dst: IpAddr, reported: u32) -> u16 {
    let floor = pmtu_floor(dst);
    let candidate = if reported == 0 {
        match plateau_below(current) {
            Some(p) => p,
            None => floor,
        }
    } else if reported > 0xffff {
        0xffff
    } else {
        reported as u16
    };
    let top = if link_mtu > floor {
        link_mtu
    } else {
        floor
    };
    if candidate < floor {
        floor
    } else if candidate > top {
        top
    } else {
        candidate
    }
}

/// Index of the first entry for `dst`, or the number of entries.
pub open spec fn index_for(entries: Seq<Option<Entry>>, dst: IpAddr) -> nat
    decreases entries.len(),
{
    if entries.len() == 0 {
        0
    } else if entries[0] matches Some(x) && x.dst == dst {
        0
    } else {
        1 + index_for(entries.drop_first(), dst)
    }
}

/// The entries with the expired ones among the first `n` removed.
pub open spec fn pruned(entries: Seq<Option<Entry>>, n: int, now: Instant) -> Seq<Option<Entry>> {
    entries.map(
        |i: int, e: Option<Entry>|
            if i < n && (e matches Some(x) && x.expires.micros <= now.micros) {
                None
            } else {
                e
            },
    )
}

/// When an entry expires; an empty place counts as expired long ago.
pub open spec fn expiry(e: Option<Entry>) -> u64 {
    match e {
        None => 0,
        Some(x) => x.expires.micros,
    }
}

/// The first of the first `n` entries that expires soonest, and when.
pub open spec fn soonest(entries: Seq<Option<Entry>>, n: nat) -> (int, u64)
    decreases n,
{
    if n == 0 {
        (0, u64::MAX)
    } else {
        let (i, x) = soonest(entries, (n - 1) as nat);
        if expiry(entries[n - 1]) < x {
            (n - 1, expiry(entries[n - 1]))
        } else {
            (i, x)
        }
    }
}

/// The entries after storing `entry`: in place of the one for the same
/// destination, else in an empty place, else in place of the one that expires
/// soonest. Expired entries met on the way are removed.
pub open spec fn stored(entries: Seq<Option<Entry>>, now: Instant, entry: Entry) -> Seq<Option<Entry>> {
    let k = index_for(entries, entry.dst) as int;
    let p = pruned(entries, k, now);
    if k < entries.len() {
        p.update(k, Some(entry))
    } else {
        p.update(soonest(p, p.len()).0, Some(entry))
    }
}

/// The entries after a report, and the estimate it implies. A report that does
/// not lower the current estimate changes nothing.
pub open spec fn reported_to(
    entries: Seq<Option<Entry>>,
    now: Instant,
    link_mtu: u16,
    dst: IpAddr,
    reported: u32,
) -> (Seq<Option<Entry>>, u16) {
    let current = path_mtu(entries, now, link_mtu, dst);
    let new = implied_mtu(current, link_mtu, dst, reported);
    (
        if new < current {
            stored(entries, now, Entry { dst, mtu: new, expires: now + pmtu_ttl() })
        } else {
            entries
        },
        new,
    )
}

proof fn lemma_index_for_is(entries: Seq<Option<Entry>>, dst: IpAddr, k: int)
    requires
        0 <= k <= entries.len(),
        forall|i: int|
            0 <= i < k ==> !((#[trigger] entries[i]) matches Some(x) && x.dst == dst),
        k < entries.len() ==> entries[k] is Some && entries[k]->0.dst == dst,
    ensures
        index_for(entries, dst) == k,
    decreases entries.len(),
{
    if k > 0 {
        assert(forall|i: int| 0 <= i < k - 1 ==> entries.drop_first()[i] == entries[i + 1]);
        lemma_index_for_is(entries.drop_first(), dst, k - 1);
    }
}

proof fn lemma_index_for_props(entries: Seq<Option<Entry>>, dst: IpAddr)
    ensures
        index_for(entries, dst) <= entries.len(),
        forall|i: int|
            0 <= i < index_for(entries, dst) ==> !((#[trigger] entries[i]) matches Some(x) && x.dst
                == dst),
        index_for(entries, dst) < entries.len() ==> {
            &&& entries[index_for(entries, dst) as int] is Some
            &&& entries[index_for(entries, dst) as int]->0.dst == dst
        },
    decreases entries.len(),
{
    if entries.len() > 0 && !(entries[0] matches Some(x) && x.dst == dst) {
        let t = entries.drop_first();
        lemma_index_for_props(t, dst);
        assert forall|i: int| 0 <= i < index_for(entries, dst) implies !((
        #[trigger] entries[i]) matches Some(x) && x.dst == dst) by {
            if i > 0 {
                assert(t[i - 1] == entries[i]);
            }
        }
    }
}

proof fn lemma_path_mtu_at(
    entries: Seq<Option<Entry>>,
    now: Instant,
    link_mtu: u16,
    dst: IpAddr,
    k: int,
)
    requires
        0 <= k < entries.len(),
        forall|i: int| 0 <= i < k ==> !entry_applies(#[trigger] entries[i], now, dst),
        entry_applies(entries[k], now, dst),
    ensures
        path_mtu(entries, now, link_mtu, dst) == if entries[k]->0.mtu < link_mtu {
            entries[k]->0.mtu
        } else {
            link_mtu
        },
    decreases k,
{
    if k > 0 {
        assert(forall|i: int| 0 <= i < k ==> entries.drop_first()[i] == entries[i + 1]);
        assert(!entry_applies(entries[0], now, dst));
        lemma_path_mtu_at(entries.drop_first(), now, link_mtu, dst, k - 1);
    }
}

proof fn lemma_soonest_bounds(entries: Seq<Option<Entry>>, n: nat)
    requires
        n <= entries.len(),
    ensures
        n > 0 ==> 0 <= soonest(entries, n).0 < n,
    decreases n,
{
    reveal_with_fuel(soonest, 2);
    if n > 1 {
        lemma_soonest_bounds(entries, (n - 1) as nat);
    }
}

/// The estimate for a path never exceeds the link's MTU.
pub proof fn estimate_within_link(
    entries: Seq<Option<Entry>>,
    now: Instant,
    link_mtu: u16,
    dst: IpAddr,
)
    ensures
        path_mtu(entries, now, link_mtu, dst) <= link_mtu,
    decreases entries.len(),
{
    if entries.len() > 0 {
        estimate_within_link(entries.drop_first(), now, link_mtu, dst);
    }
}

/// A report never raises the estimate for its destination; one that implies
/// less than the current estimate lowers it to that.
pub proof fn report_only_lowers(
    entries: Seq<Option<Entry>>,
    now: Instant,
    link_mtu: u16,
    dst: IpAddr,
    reported: u32,
)
    requires
        entries.len() > 0,
        now.micros < u64::MAX,
    ensures
        ({
            let before = path_mtu(entries, now, link_mtu, dst);
            let (after, new) = reported_to(entries, now, link_mtu, dst, reported);
            &&& path_mtu(after, now, link_mtu, dst) <= before
            &&& new < before ==> path_mtu(after, now, link_mtu, dst) == new
            &&& new >= before ==> after == entries
        }),
{
    let before = path_mtu(entries, now, link_mtu, dst);
    let (after, new) = reported_to(entries, now, link_mtu, dst, reported);
    lemma_path_mtu_at_most(entries, now, link_mtu, dst);
    if new < before {
        let entry = Entry { dst, mtu: new, expires: now + pmtu_ttl() };
        lemma_index_for_props(entries, dst);
        let k = index_for(entries, dst) as int;
        let p = pruned(entries, k, now);
        if k < entries.len() {
            assert forall|i: int| 0 <= i < k implies !entry_applies(
                #[trigger] after[i],
                now,
                dst,
            ) by {
                assert(after[i] == p[i]);
                assert(!(entries[i] matches Some(x) && x.dst == dst));
            }
            lemma_path_mtu_at(after, now, link_mtu, dst, k);
        } else {
            lemma_soonest_bounds(p, p.len());
            let v = soonest(p, p.len()).0;
            assert forall|i: int| 0 <= i < v implies !entry_applies(
                #[trigger] after[i],
                now,
                dst,
            ) by {
                assert(after[i] == p[i]);
                assert(!(entries[i] matches Some(x) && x.dst == dst));
            }
            lemma_path_mtu_at(after, now, link_mtu, dst, v);
        }
    }
}

proof fn lemma_path_mtu_at_most(
    entries: Seq<Option<Entry>>,
    now: Instant,
    link_mtu: u16,
    dst: IpAddr,
)
    ensures
        path_mtu(entries, now, link_mtu, dst) <= link_mtu,
    decreases entries.len(),
{
    if entries.len() > 0 {
        lemma_path_mtu_at_most(entries.drop_first(), now, link_mtu, dst);
    }
}

/// Whatever is reported, the implied estimate stays between the floor of the
/// family and the link MTU (or the floor, if the link is below it).
pub proof fn implied_mtu_is_within_bounds(current: u16, link_mtu: u16, dst: IpAddr, reported: u32)
    ensures
        pmtu_floor(dst) <= implied_mtu(current, link_mtu, dst, reported),
        implied_mtu(current, link_mtu, dst, reported) <= link_mtu || implied_mtu(
            current,
            link_mtu,
            dst,
            reported,
        ) == pmtu_floor(dst),
{
}

/// Once all entries for a destination have expired, the link MTU is used.
pub proof fn estimates_age_out(
    entries: Seq<Option<Entry>>,
    now: Instant,
    link_mtu: u16,
    dst: IpAddr,
)
    requires
        forall|i: int| 0 <= i < entries.len() ==> !entry_applies(#[trigger] entries[i], now, dst),
    ensures
        path_mtu(entries, now, link_mtu, dst) == link_mtu,
    decreases entries.len(),
{
    if entries.len() > 0 {
        assert(!entry_applies(entries[0], now, dst));
        assert(forall|i: int|
            0 <= i < entries.len() - 1 ==> entries.drop_first()[i] == entries[i + 1]);
        estimates_age_out(entries.drop_first(), now, link_mtu, dst);
    }
}

impl<const N: usize> Default for PmtuCache<N> {
    fn default() -> (r: Self)
        ensures
            forall|i: int| 0 <= i < N ==> r.entries@[i] is None,
    {
        Self::new()
    }
}

impl<const N: usize> PmtuCache<N> {
    /// An empty cache.
    pub fn new() -> (r: Self)
        ensures
            forall|i: int| 0 <= i < N ==> r.entries@[i] is None,
    {
        PmtuCache { entries: [None; N] }
    }

    /// Current path MTU toward `dst`, given the configured link MTU.
    pub fn get(&self, now: Instant, link_mtu: u16, dst: &IpAddr) -> (r: u16)
        ensures
            r == path_mtu(self.entries@, now, link_mtu, *dst),
    {
        let mut i: usize = 0;
        assert(self.entries@.skip(0) =~= self.entries@);
        while i < N
            invariant
                i <= N,
                path_mtu(self.entries@, now, link_mtu, *dst) == path_mtu(
                    self.entries@.skip(i as int),
                    now,
                    link_mtu,
                    *dst,
                ),
            decreases N - i,
        {
            assert(self.entries@.skip(i as int).drop_first() =~= self.entries@.skip(i + 1));
            if let Some(e) = self.entries[i] {
                if e.dst == *dst && e.expires.micros > now.micros {
                    return if e.mtu < link_mtu {
                        e.mtu
                    } else {
                        link_mtu
                    };
                }
            }
            i += 1;
        }
        link_mtu
    }

    /// Process a fragmentation-needed / packet-too-big report for `dst`.
    /// `reported` is the MTU field from the ICMP message (0 from pre-1191
    /// routers). Returns the floor-clamped estimate the report implies; the
    /// shared cache is only *lowered* (raises arrive only by aging out), but
    /// the caller must still propagate the value to every connection toward
    /// `dst` whose own estimate exceeds it.
    pub fn update(&mut self, now: Instant, link_mtu: u16, dst: &IpAddr, reported: u32) -> (r: u16)
        requires
            N > 0,
        ensures
            (final(self).entries@, r) == reported_to(
                old(self).entries@,
                now,
                link_mtu,
                *dst,
                reported,
            ),
    {
        let current: u16 = self.get(now, link_mtu, dst);
        let floor: u16 = if dst.is_v4() {
            IPV4_MIN_PMTU
        } else {
            IPV6_MIN_PMTU
        };
        let candidate: u16 = if reported == 0 {
            match lower_plateau(current) {
                Some(p) => p,
                None => floor,
            }
        } else if reported > 0xffff {
            0xffff
        } else {
            reported as u16
        };
        let top: u16 = if link_mtu > floor {
            link_mtu
        } else {
            floor
        };
        let new: u16 = if candidate < floor {
            floor
        } else if candidate > top {
            top
        } else {
            candidate
        };
        if new < current {
            self.insert(now, dst, new);
        }
        new
    }

    fn insert(&mut self, now: Instant, dst: &IpAddr, mtu: u16)
        requires
            N > 0,
        ensures
            final(self).entries@ == stored(
                old(self).entries@,
                now,
                Entry { dst: *dst, mtu, expires: now + pmtu_ttl() },
            ),
    {
        let entry = Entry { dst: *dst, mtu, expires: now + pmtu_ttl() };
        let ghost before = self.entries@;
        let mut victim: usize = 0;
        let mut victim_expiry: u64 = u64::MAX;
        let mut i: usize = 0;
        assert(self.entries@ =~= pruned(before, 0, now));
        while i < N
            invariant
                i <= N,
                victim < N,
                before == old(self).entries@,
                before.len() == N,
                entry == (Entry { dst: *dst, mtu, expires: now + pmtu_ttl() }),
                forall|j: int|
                    0 <= j < i ==> !((#[trigger] before[j]) matches Some(x) && x.dst == *dst),
                self.entries@ == pruned(before, i as int, now),
                (victim as int, victim_expiry) == soonest(self.entries@, i as nat),
            decreases N - i,
        {
            let ghost p = self.entries@;
            assert(p[i as int] == before[i as int]);
            let mut here: u64 = 0;
            if let Some(e) = self.entries[i] {
                if e.dst == *dst {
                    proof {
                        lemma_index_for_is(before, *dst, i as int);
                    }
                    self.entries[i] = Some(entry);
                    return;
                }
                if e.expires.micros <= now.micros {
                    self.entries[i] = None;
                } else {
                    here = e.expires.micros;
                }
            }
            assert(self.entries@ =~= pruned(before, i + 1, now));
            proof {
                lemma_soonest_same(p, self.entries@, i as nat);
            }
            if here < victim_expiry {
                victim = i;
                victim_expiry = here;
            }
            i += 1;
        }
        proof {
            lemma_index_for_is(before, *dst, N as int);
        }
        self.entries[victim] = Some(entry);
    }
}

proof fn lemma_soonest_same(a: Seq<Option<Entry>>, b: Seq<Option<Entry>>, n: nat)
    requires
        n <= a.len(),
        n <= b.len(),
        forall|i: int| 0 <= i < n ==> a[i] == b[i],
    ensures
        soonest(a, n) == soonest(b, n),
    decreases n,
{
    if n > 0 {
        lemma_soonest_same(a, b, (n - 1) as nat);
    }
}

fn lower_plateau(current: u16) -> (r: Option<u16>)
    ensures
        r == plateau_below(current),
{
    let plateaus: [u16; 10] = [68, 296, 508, 1006, 1492, 2002, 4352, 8166, 17914, 32000];
    let mut i: usize = 10;
    while i > 0
        invariant
            i <= 10,
            plateaus@ == seq![68u16, 296, 508, 1006, 1492, 2002, 4352, 8166, 17914, 32000],
            i < 10 ==> current <= plateaus@[i as int],
        decreases i,
    {
        if plateaus[i - 1] < current {
            return Some(plateaus[i - 1]);
        }
        i -= 1;
    }
    None
}

/// What a report implies: the size it reports, where the family and the link
/// allow that; the least that the family allows, if it reports less; the link's,
/// if it reports more.
pub proof fn report_is_believed_within_bounds(
    current: u16,
    link_mtu: u16,
    dst: IpAddr,
    reported: u32,
)
    requires
        reported >= 1,
        link_mtu >= (if dst is V4 {
            576int
        } else {
            1280
        }),
    ensures
        ({
            let floor = if dst is V4 {
                576int
            } else {
                1280
            };
            let r = implied_mtu(current, link_mtu, dst, reported) as int;
            &&& floor <= reported <= link_mtu ==> r == reported
            &&& reported <= floor ==> r == floor
            &&& reported >= link_mtu ==> r == link_mtu
        }),
{
}

/// A report without a size, from an old router, still makes progress: the
/// estimate goes down, though never below what the family allows.
pub proof fn report_without_a_size_steps_down(current: u16, link_mtu: u16, dst: IpAddr)
    requires
        current <= link_mtu,
    ensures
        ({
            let floor = if dst is V4 {
                576int
            } else {
                1280
            };
            let r = implied_mtu(current, link_mtu, dst, 0) as int;
            &&& current > floor ==> floor <= r < current
            &&& current > 1500 && dst is V4 ==> 4 * r >= current
        }),
{
}

/// A lowered estimate holds for ten minutes and then ages out; it says nothing
/// of other destinations.
pub proof fn estimates_hold_for_ten_minutes(
    now: Instant,
    later: Instant,
    link_mtu: u16,
    dst: IpAddr,
    other: IpAddr,
    reported: u32,
    n: nat,
)
    requires
        n > 0,
        now.micros + 600_000_000 < u64::MAX,
        now.micros <= later.micros,
        other != dst,
        1 <= reported < link_mtu,
        link_mtu > (if dst is V4 {
            576int
        } else {
            1280
        }),
    ensures
        ({
            let none = Seq::new(n, |i: int| None::<Entry>);
            let (after, new) = reported_to(none, now, link_mtu, dst, reported);
            &&& later.micros < now.micros + 600_000_000 ==> path_mtu(after, later, link_mtu, dst)
                == new
            &&& later.micros >= now.micros + 600_000_000 ==> path_mtu(after, later, link_mtu, dst)
                == link_mtu
            &&& path_mtu(after, later, link_mtu, other) == link_mtu
            &&& new < link_mtu
        }),
{
    let none = Seq::new(n, |i: int| None::<Entry>);
    assert forall|i: int| 0 <= i < none.len() implies !entry_applies(
        #[trigger] none[i],
        now,
        dst,
    ) by {}
    estimates_age_out(none, now, link_mtu, dst);
    let (after, new) = reported_to(none, now, link_mtu, dst, reported);
    let e = Entry { dst, mtu: new, expires: now + pmtu_ttl() };
    lemma_index_for_is(none, dst, none.len() as int);
    let p = pruned(none, none.len() as int, now);
    assert(p =~= none);
    lemma_soonest_bounds(p, p.len());
    let v = soonest(p, p.len()).0;
    assert(after == none.update(v, Some(e)));
    assert forall|i: int| 0 <= i < after.len() implies !entry_applies(
        #[trigger] after[i],
        later,
        other,
    ) by {}
    estimates_age_out(after, later, link_mtu, other);
    if later.micros < now.micros + 600_000_000 {
        lemma_path_mtu_at(after, later, link_mtu, dst, v);
    } else {
        assert forall|i: int| 0 <= i < after.len() implies !entry_applies(
            #[trigger] after[i],
            later,
            dst,
        ) by {}
        estimates_age_out(after, later, link_mtu, dst);
    }
}

/// A report about a destination that is known already says nothing of others:
/// what is known of them stays.
pub proof fn reports_leave_other_destinations_alone(
    entries: Seq<Option<Entry>>,
    now: Instant,
    link_mtu: u16,
    dst: IpAddr,
    other: IpAddr,
    reported: u32,
    k: int,
)
    requires
        other != dst,
        0 <= k < entries.len(),
        entries[k] matches Some(e) && e.dst == dst,
    ensures
        path_mtu(reported_to(entries, now, link_mtu, dst, reported).0, now, link_mtu, other)
            == path_mtu(entries, now, link_mtu, other),
{
    lemma_index_for_props(entries, dst);
    let after = reported_to(entries, now, link_mtu, dst, reported).0;
    let j = index_for(entries, dst) as int;
    assert(j < entries.len());
    assert forall|i: int| 0 <= i < entries.len() implies {
        &&& entry_applies(#[trigger] after[i], now, other) == entry_applies(
            entries[i],
            now,
            other,
        )
        &&& entry_applies(entries[i], now, other) ==> after[i] == entries[i]
    } by {}
    lemma_alike(entries, after, now, link_mtu, other);
}

proof fn lemma_alike(
    a: Seq<Option<Entry>>,
    b: Seq<Option<Entry>>,
    now: Instant,
    link_mtu: u16,
    dst: IpAddr,
)
    requires
        b.len() == a.len(),
        forall|i: int|
            0 <= i < a.len() ==> {
                &&& entry_applies(#[trigger] b[i], now, dst) == entry_applies(a[i], now, dst)
                &&& entry_applies(a[i], now, dst) ==> b[i] == a[i]
            },
    ensures
        path_mtu(b, now, link_mtu, dst) == path_mtu(a, now, link_mtu, dst),
    decreases a.len(),
{
    if a.len() > 0 {
        assert(entry_applies(b[0], now, dst) == entry_applies(a[0], now, dst));
        let (s, t) = (a.drop_first(), b.drop_first());
        assert forall|i: int| 0 <= i < s.len() implies {
            &&& entry_applies(#[trigger] t[i], now, dst) == entry_applies(s[i], now, dst)
            &&& entry_applies(s[i], now, dst) ==> t[i] == s[i]
        } by {
            assert(t[i] == b[i + 1] && s[i] == a[i + 1]);
        }
        lemma_alike(s, t, now, link_mtu, dst);
    }
}

} // verus!
