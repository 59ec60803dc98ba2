//! What a runtime keeps for a stack: one pending deadline per timer key.
use crate::time::{Duration, Instant};
use crate::types::{Action, TimerKey};
use vstd::prelude::*;

verus! {

/// The deadlines that a stack asked for, one per key.
pub struct TimerTable {
    entries: Vec<(TimerKey, Instant)>,
}

/// The deadlines in a list whose keys are distinct.
pub open spec fn deadlines(entries: Seq<(TimerKey, Instant)>) -> Map<TimerKey, Instant>
    decreases entries.len(),
{
    if entries.len() == 0 {
        Map::empty()
    } else {
        deadlines(entries.drop_last()).insert(entries.last().0, entries.last().1)
    }
}

/// Whether no key is in a list twice.
pub open spec fn keys_distinct(entries: Seq<(TimerKey, Instant)>) -> bool {
    forall|i: int, j: int|
        0 <= i < j < entries.len() ==> (#[trigger] entries[i]).0 != (#[trigger] entries[j]).0
}

/// What a list holds for a key.
proof fn lemma_deadlines(entries: Seq<(TimerKey, Instant)>)
    requires
        keys_distinct(entries),
    ensures
        forall|i: int|
            0 <= i < entries.len() ==> #[trigger] deadlines(entries).dom().contains(entries[i].0)
                && deadlines(entries)[entries[i].0] == entries[i].1,
        forall|k: TimerKey| #[trigger]
            deadlines(entries).dom().contains(k) ==> exists|i: int|
                0 <= i < entries.len() && (#[trigger] entries[i]).0 == k,
    decreases entries.len(),
{
    if entries.len() > 0 {
        let init = entries.drop_last();
        assert(keys_distinct(init));
        lemma_deadlines(init);
        assert forall|i: int| 0 <= i < entries.len() implies #[trigger] deadlines(
            entries,
        ).dom().contains(entries[i].0) && deadlines(entries)[entries[i].0] == entries[i].1 by {
            if i < init.len() {
                assert(init[i] == entries[i]);
                assert(deadlines(init).dom().contains(init[i].0));
            }
        }
        assert forall|k: TimerKey| #[trigger]
            deadlines(entries).dom().contains(k) implies exists|i: int|
            0 <= i < entries.len() && (#[trigger] entries[i]).0 == k by {
            if k == entries.last().0 {
                assert(entries[entries.len() - 1].0 == k);
            } else {
                assert(deadlines(init).dom().contains(k));
                let i = choose|i: int| 0 <= i < init.len() && (#[trigger] init[i]).0 == k;
                assert(entries[i].0 == k);
            }
        }
    }
}

/// The deadlines after an action was carried out: a started timer is pending
/// under its new deadline alone, a cancelled one is not pending.
pub open spec fn timers_after(m: Map<TimerKey, Instant>, now: Instant, a: Action) -> Map<
    TimerKey,
    Instant,
> {
    match a {
        Action::StartTimer { key, after } => m.insert(key, now + after),
        Action::CancelTimer { key } => m.remove(key),
        _ => m,
    }
}

/// Whether a timer is pending and due.
pub open spec fn due(m: Map<TimerKey, Instant>, now: Instant, key: TimerKey) -> bool {
    m.dom().contains(key) && m[key].micros <= now.micros
}

impl View for TimerTable {
    type V = Map<TimerKey, Instant>;

    closed spec fn view(&self) -> Map<TimerKey, Instant> {
        deadlines(self.entries@)
    }
}

impl TimerTable {
    /// At most one deadline per key.
    pub closed spec fn wf(&self) -> bool {
        keys_distinct(self.entries@)
    }

    /// No deadlines.
    pub fn new() -> (r: Self)
        ensures
            r.wf(),
            r@ == Map::<TimerKey, Instant>::empty(),
    {
        TimerTable { entries: Vec::new() }
    }

    /// Where a key stands.
    fn position(&self, key: TimerKey) -> (r: Option<usize>)
        ensures
            match r {
                Some(i) => i < self.entries@.len() && self.entries@[i as int].0 == key,
                None => forall|i: int|
                    0 <= i < self.entries@.len() ==> (#[trigger] self.entries@[i]).0 != key,
            },
    {
        let mut i: usize = 0;
        while i < self.entries.len()
            invariant
                i <= self.entries@.len(),
                forall|j: int| 0 <= j < i ==> (#[trigger] self.entries@[j]).0 != key,
            decreases self.entries@.len() - i,
        {
            if self.entries[i].0 == key {
                return Some(i);
            }
            i += 1;
        }
        None
    }

    /// The deadline of a timer, if it is pending.
    pub fn get(&self, key: TimerKey) -> (r: Option<Instant>)
        requires
            self.wf(),
        ensures
            r == if self@.dom().contains(key) {
                Some(self@[key])
            } else {
                None
            },
    {
        proof {
            lemma_deadlines(self.entries@);
        }
        match self.position(key) {
            Some(i) => {
                assert(self@.dom().contains(self.entries@[i as int].0));
                Some(self.entries[i].1)
            },
            None => None,
        }
    }

    /// Set a timer to a deadline, whether it is pending or not.
    pub fn start(&mut self, key: TimerKey, at: Instant)
        requires
            old(self).wf(),
        ensures
            final(self).wf(),
            final(self)@ == old(self)@.insert(key, at),
    {
        self.cancel(key);
        let ghost before = self.entries@;
        let ghost m = self@;
        self.entries.push((key, at));
        proof {
            let after = self.entries@;
            lemma_deadlines(before);
            assert forall|i: int, j: int| 0 <= i < j < after.len() implies (#[trigger] after[i]).0
                != (#[trigger] after[j]).0 by {
                assert(after[i] == before[i]);
                if j == before.len() {
                    assert(deadlines(before).dom().contains(before[i].0));
                } else {
                    assert(after[j] == before[j]);
                }
            }
            assert(after.drop_last() =~= before);
            assert(self@ == m.insert(key, at));
            assert(m.insert(key, at) =~= old(self)@.insert(key, at));
        }
    }

    /// Forget a timer.
    pub fn cancel(&mut self, key: TimerKey)
        requires
            old(self).wf(),
        ensures
            final(self).wf(),
            final(self)@ == old(self)@.remove(key),
    {
        let ghost before = self.entries@;
        proof {
            lemma_deadlines(before);
        }
        match self.position(key) {
            Some(i) => {
                let _ = self.entries.remove(i);
                proof {
                    lemma_removed(before, i as int);
                }
            },
            None => {
                assert(self@ =~= old(self)@.remove(key));
            },
        }
    }

    /// Carry out a timer action of the stack; others are left to the caller.
    pub fn on_action(&mut self, now: Instant, a: Action)
        requires
            old(self).wf(),
        ensures
            final(self).wf(),
            final(self)@ == timers_after(old(self)@, now, a),
    {
        match a {
            Action::StartTimer { key, after } => self.start(key, now + after),
            Action::CancelTimer { key } => self.cancel(key),
            _ => {},
        }
    }

    /// Take out one timer that is due, if there is one.
    pub fn take_due(&mut self, now: Instant) -> (r: Option<TimerKey>)
        requires
            old(self).wf(),
        ensures
            final(self).wf(),
            match r {
                Some(key) => due(old(self)@, now, key) && final(self)@ == old(self)@.remove(key),
                None => final(self)@ == old(self)@ && forall|key: TimerKey| !#[trigger] due(
                    old(self)@,
                    now,
                    key,
                ),
            },
    {
        let ghost before = self.entries@;
        proof {
            lemma_deadlines(before);
        }
        let mut i: usize = 0;
        while i < self.entries.len()
            invariant
                i <= self.entries@.len(),
                self.entries@ == before,
                before == old(self).entries@,
                keys_distinct(before),
                forall|j: int| 0 <= j < i ==> (#[trigger] before[j]).1.micros > now.micros,
            decreases self.entries@.len() - i,
        {
            if self.entries[i].1.micros <= now.micros {
                let key = self.entries[i].0;
                let _ = self.entries.remove(i);
                proof {
                    lemma_deadlines(before);
                    assert(deadlines(before).dom().contains(before[i as int].0));
                    lemma_removed(before, i as int);
                }
                return Some(key);
            }
            i += 1;
        }
        proof {
            assert forall|key: TimerKey| !#[trigger] due(self@, now, key) by {
                if self@.dom().contains(key) {
                    let j = choose|j: int| 0 <= j < before.len() && (#[trigger] before[j]).0 == key;
                    assert(deadlines(before).dom().contains(before[j].0));
                }
            }
        }
        None
    }
}

/// Taking an entry out of a list takes its key out of the deadlines.
proof fn lemma_removed(entries: Seq<(TimerKey, Instant)>, i: int)
    requires
        keys_distinct(entries),
        0 <= i < entries.len(),
    ensures
        keys_distinct(entries.remove(i)),
        deadlines(entries.remove(i)) == deadlines(entries).remove(entries[i].0),
{
    let rest = entries.remove(i);
    assert forall|a: int, b: int| 0 <= a < b < rest.len() implies (#[trigger] rest[a]).0 != (
    #[trigger] rest[b]).0 by {
        let x = if a < i {
            a
        } else {
            a + 1
        };
        let y = if b < i {
            b
        } else {
            b + 1
        };
        assert(rest[a] == entries[x] && rest[b] == entries[y]);
    }
    lemma_deadlines(entries);
    lemma_deadlines(rest);
    let m = deadlines(entries).remove(entries[i].0);
    assert forall|k: TimerKey| deadlines(rest).dom().contains(k) <==> m.dom().contains(k) by {
        if deadlines(rest).dom().contains(k) {
            let a = choose|a: int| 0 <= a < rest.len() && (#[trigger] rest[a]).0 == k;
            let x = if a < i {
                a
            } else {
                a + 1
            };
            assert(rest[a] == entries[x]);
            assert(deadlines(entries).dom().contains(entries[x].0));
            assert(entries[x].0 != entries[i].0);
        }
        if m.dom().contains(k) {
            let x = choose|x: int| 0 <= x < entries.len() && (#[trigger] entries[x]).0 == k;
            let a = if x < i {
                x
            } else {
                x - 1
            };
            assert(rest[a] == entries[x]);
            assert(deadlines(rest).dom().contains(rest[a].0));
        }
    }
    assert forall|k: TimerKey| deadlines(rest).dom().contains(k) implies deadlines(rest)[k]
        == m[k] by {
        let a = choose|a: int| 0 <= a < rest.len() && (#[trigger] rest[a]).0 == k;
        let x = if a < i {
            a
        } else {
            a + 1
        };
        assert(rest[a] == entries[x]);
        assert(deadlines(rest).dom().contains(rest[a].0));
        assert(deadlines(entries).dom().contains(entries[x].0));
        assert(m.dom().contains(k));
    }
    assert(deadlines(rest) =~= m);
}

/// The last word counts for each timer: a start sets its deadline, also if it
/// was pending; a cancellation removes it; neither touches another one, and
/// nothing else touches any.
pub proof fn the_last_word_counts(
    m: Map<TimerKey, Instant>,
    now: Instant,
    key: TimerKey,
    other: TimerKey,
    after: Duration,
)
    requires
        other != key,
        now.micros + after.micros <= u64::MAX,
    ensures
        ({
            let s = timers_after(m, now, Action::StartTimer { key, after });
            let c = timers_after(m, now, Action::CancelTimer { key });
            &&& s.dom().contains(key) && s[key].micros == now.micros + after.micros
            &&& !c.dom().contains(key)
            &&& s.dom().contains(other) <==> m.dom().contains(other)
            &&& c.dom().contains(other) <==> m.dom().contains(other)
            &&& m.dom().contains(other) ==> s[other] == m[other] && c[other] == m[other]
            &&& timers_after(m, now, Action::RequestEntropy) == m
        }),
{
}

} // verus!
