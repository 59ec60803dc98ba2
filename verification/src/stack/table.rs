//! The pre-allocated connection pool.
use super::model::{conn_index, free_index};
use crate::tcp::conn::identity::{
    plans_keep_path, plans_keep_text, segments_keep_path, timers_keep_path,
};
use crate::tcp::conn::input::Segment;
use crate::tcp::conn::output::{plan_fits, SegmentPlan};
use crate::tcp::conn::{ConnModel, Connection, Effects, ResetReply, Tcb};
use crate::time::Instant;
use crate::types::{CloseReason, Error, SocketAddr, TimerKind};
use crate::wire::tcp::{TcpHeader, TcpOptions};
use vstd::prelude::*;

verus! {

/// Connections by slot.
pub struct ConnTable<const CONNS: usize, const SND: usize, const RCV: usize> {
    /// The slots.
    pub slots: [Option<Connection<SND, RCV>>; CONNS],
}

/// The model of a slot.
pub open spec fn slot_view<const SND: usize, const RCV: usize>(
    s: Option<Connection<SND, RCV>>,
) -> Option<ConnModel> {
    match s {
        Some(c) => Some(c@),
        None => None,
    }
}

impl<const CONNS: usize, const SND: usize, const RCV: usize> View for ConnTable<CONNS, SND, RCV> {
    type V = Seq<Option<ConnModel>>;

    open spec fn view(&self) -> Seq<Option<ConnModel>> {
        Seq::new(CONNS as nat, |i: int| slot_view(self.slots@[i]))
    }
}

impl<const CONNS: usize, const SND: usize, const RCV: usize> ConnTable<CONNS, SND, RCV> {
    /// Every connection is well-formed.
    pub open spec fn wf(&self) -> bool {
        forall|i: int|
            0 <= i < CONNS ==> ((#[trigger] self.slots@[i]) matches Some(c) ==> c.wf())
    }

    /// No connections.
    pub fn new() -> (r: Self)
        ensures
            r.wf(),
            r@ == Seq::new(CONNS as nat, |i: int| None::<ConnModel>),
    {
        let r = ConnTable { slots: [None; CONNS] };
        assert(r@ =~= Seq::new(CONNS as nat, |i: int| None::<ConnModel>));
        r
    }

    /// The connection in a slot.
    pub fn get(&self, idx: usize) -> (r: Option<&Connection<SND, RCV>>)
        requires
            self.wf(),
            idx < CONNS,
        ensures
            match r {
                Some(c) => c.wf() && self@[idx as int] == Some(c@),
                None => self@[idx as int] is None,
            },
    {
        match &self.slots[idx] {
            Some(c) => Some(c),
            None => None,
        }
    }

    /// The connection in an occupied slot, to be changed.
    fn at(&mut self, idx: usize) -> (r: &mut Connection<SND, RCV>)
        requires
            old(self).wf(),
            idx < CONNS,
            old(self)@[idx as int] is Some,
        ensures
            r.wf(),
            old(self)@[idx as int] == Some(r@),
            final(r).wf() ==> final(self).wf(),
            final(self)@ == old(self)@.update(idx as int, Some(final(r)@)),
    {
        match &mut self.slots[idx] {
            Some(c) => c,
            None => vstd::pervasive::unreached(),
        }
    }
}

/// What a search for a connection finds.
proof fn lemma_conn_index_is(
    conns: Seq<Option<ConnModel>>,
    local: SocketAddr,
    remote: SocketAddr,
    k: int,
)
    requires
        0 <= k <= conns.len(),
        forall|i: int|
            0 <= i < k ==> !((#[trigger] conns[i]) matches Some(c) && c.tcb.local == local
                && c.tcb.remote == remote),
        k < conns.len() ==> (conns[k] matches Some(c) && c.tcb.local == local && c.tcb.remote
            == remote),
    ensures
        conn_index(conns, local, remote) == k,
    decreases conns.len(),
{
    if k > 0 {
        assert(forall|i: int| 0 <= i < k - 1 ==> conns.drop_first()[i] == conns[i + 1]);
        assert(conns.drop_first().len() == conns.len() - 1);
        lemma_conn_index_is(conns.drop_first(), local, remote, k - 1);
    }
}

/// What a search for a free slot finds.
proof fn lemma_free_index_is(conns: Seq<Option<ConnModel>>, k: int)
    requires
        0 <= k <= conns.len(),
        forall|i: int| 0 <= i < k ==> (#[trigger] conns[i]) is Some,
        k < conns.len() ==> conns[k] is None,
    ensures
        free_index(conns) == k,
    decreases conns.len(),
{
    if k > 0 {
        assert(forall|i: int| 0 <= i < k - 1 ==> conns.drop_first()[i] == conns[i + 1]);
        lemma_free_index_is(conns.drop_first(), k - 1);
    }
}

impl<const CONNS: usize, const SND: usize, const RCV: usize> ConnTable<CONNS, SND, RCV> {
    /// Slot of the connection between two endpoints.
    pub fn find(&self, local: &SocketAddr, remote: &SocketAddr) -> (r: Option<usize>)
        requires
            self.wf(),
        ensures
            match r {
                Some(i) => {
                    &&& i < CONNS
                    &&& i == conn_index(self@, *local, *remote)
                    &&& self@[i as int] is Some
                    &&& self@[i as int]->0.tcb.local == *local
                    &&& self@[i as int]->0.tcb.remote == *remote
                },
                None => conn_index(self@, *local, *remote) == CONNS,
            },
    {
        let mut i: usize = 0;
        while i < CONNS
            invariant
                i <= CONNS,
                self.wf(),
                forall|j: int|
                    0 <= j < i ==> !((#[trigger] self@[j]) matches Some(c) && c.tcb.local == *local
                        && c.tcb.remote == *remote),
            decreases CONNS - i,
        {
            if let Some(c) = self.get(i) {
                if c.local() == *local && c.remote() == *remote {
                    proof {
                        lemma_conn_index_is(self@, *local, *remote, i as int);
                    }
                    return Some(i);
                }
            }
            i += 1;
        }
        proof {
            lemma_conn_index_is(self@, *local, *remote, CONNS as int);
        }
        None
    }

    /// First free slot. A closed connection that awaits its reaping is not
    /// free: reusing its slot would alias the old generation.
    pub fn free_slot(&self) -> (r: Option<usize>)
        requires
            self.wf(),
        ensures
            match r {
                Some(i) => i < CONNS && i == free_index(self@) && self@[i as int] is None,
                None => free_index(self@) == CONNS,
            },
    {
        let mut i: usize = 0;
        while i < CONNS
            invariant
                i <= CONNS,
                self.wf(),
                forall|j: int| 0 <= j < i ==> (#[trigger] self@[j]) is Some,
            decreases CONNS - i,
        {
            if self.get(i).is_none() {
                proof {
                    lemma_free_index_is(self@, i as int);
                }
                return Some(i);
            }
            i += 1;
        }
        proof {
            lemma_free_index_is(self@, CONNS as int);
        }
        None
    }

    /// Whether a connection to `remote` uses the local port.
    pub fn port_used(&self, port: u16, remote: &SocketAddr) -> (r: bool)
        requires
            self.wf(),
        ensures
            r == exists|i: int|
                0 <= i < CONNS && ((#[trigger] self@[i]) matches Some(c) && c.tcb.local.port == port
                    && c.tcb.remote == *remote),
    {
        let mut i: usize = 0;
        while i < CONNS
            invariant
                i <= CONNS,
                self.wf(),
                forall|j: int|
                    0 <= j < i ==> !((#[trigger] self@[j]) matches Some(c) && c.tcb.local.port
                        == port && c.tcb.remote == *remote),
            decreases CONNS - i,
        {
            if let Some(c) = self.get(i) {
                if c.local().port == port && c.remote() == *remote {
                    assert(self@[i as int] is Some);
                    return true;
                }
            }
            i += 1;
        }
        false
    }

    /// Put a connection into a slot, or free it.
    pub fn put(&mut self, idx: usize, c: Option<Connection<SND, RCV>>)
        requires
            old(self).wf(),
            idx < CONNS,
            c matches Some(x) ==> x.wf(),
        ensures
            final(self).wf(),
            final(self)@ == old(self)@.update(idx as int, slot_view(c)),
    {
        self.slots[idx] = c;
        assert(self@ =~= old(self)@.update(idx as int, slot_view(c)));
    }

    /// Feed a segment to a connection.
    pub fn on_segment(
        &mut self,
        idx: usize,
        now: Instant,
        h: &TcpHeader,
        opts: &TcpOptions,
        payload: &[u8],
        fx: &mut Effects,
    )
        requires
            old(self).wf(),
            idx < CONNS,
            old(self)@[idx as int] is Some,
            old(fx).wf(),
            opts.sack_blocks.wf(),
            Segment::of(*h, opts@, payload@).legal(),
        ensures
            final(self).wf(),
            final(fx).wf(),
            ({
                let c = old(self)@[idx as int]->0;
                let (n, f) = c.arrived(
                    now,
                    Segment::of(*h, opts@, payload@),
                    SND as int,
                    old(fx)@,
                );
                &&& final(self)@ == old(self)@.update(idx as int, Some(n))
                &&& final(fx)@ == f
                &&& n.tcb.same_path(c.tcb)
            }),
    {
        proof {
            segments_keep_path(
                self@[idx as int]->0,
                now,
                Segment::of(*h, opts@, payload@),
                SND as int,
                fx@,
            );
        }
        self.at(idx).on_segment(now, h, opts, payload, fx);
    }

    /// Fire a timer of a connection.
    pub fn on_timer(&mut self, idx: usize, now: Instant, kind: TimerKind, fx: &mut Effects)
        requires
            old(self).wf(),
            idx < CONNS,
            old(self)@[idx as int] is Some,
            old(fx).wf(),
        ensures
            final(self).wf(),
            final(fx).wf(),
            ({
                let c = old(self)@[idx as int]->0;
                let (n, f) = c.fired(now, kind, old(fx)@);
                &&& final(self)@ == old(self)@.update(idx as int, Some(n))
                &&& final(fx)@ == f
                &&& n.tcb.same_path(c.tcb)
            }),
    {
        proof {
            timers_keep_path(self@[idx as int]->0, now, kind, fx@);
        }
        self.at(idx).on_timer(now, kind, fx);
    }

    /// Plan a connection's next segment.
    pub fn next_segment(&mut self, idx: usize, now: Instant) -> (r: Option<SegmentPlan>)
        requires
            old(self).wf(),
            idx < CONNS,
            old(self)@[idx as int] is Some,
        ensures
            final(self).wf(),
            ({
                let c = old(self)@[idx as int]->0;
                let (n, p) = c.next_planned(now);
                &&& final(self)@ == old(self)@.update(idx as int, Some(n))
                &&& n.tcb.same_path(c.tcb)
                &&& match r {
                    Some(plan) => p == Some(plan@) && plan.sack_blocks.wf() && plan_fits(n, plan@),
                    None => p is None,
                }
            }),
    {
        proof {
            plans_keep_path(self@[idx as int]->0, now);
            plans_keep_text(self@[idx as int]->0, now);
        }
        self.at(idx).next_segment(now)
    }

    /// Queue application data.
    pub fn send(&mut self, idx: usize, data: &[u8]) -> (r: Result<usize, Error>)
        requires
            old(self).wf(),
            idx < CONNS,
            old(self)@[idx as int] is Some,
        ensures
            final(self).wf(),
            ({
                let c = old(self)@[idx as int]->0;
                let (n, res) = c.written(data@, SND as int);
                &&& final(self)@ == old(self)@.update(idx as int, Some(n))
                &&& r == res
                &&& n.tcb.same_path(c.tcb)
            }),
    {
        self.at(idx).send(data)
    }

    /// Read received data.
    pub fn recv(&mut self, idx: usize, out: &mut [u8]) -> (r: Result<usize, Error>)
        requires
            old(self).wf(),
            idx < CONNS,
            old(self)@[idx as int] is Some,
        ensures
            final(self).wf(),
            ({
                let c = old(self)@[idx as int]->0;
                let n = c.readable_into(old(out)@.len() as int);
                &&& r == Ok::<usize, Error>(n as usize)
                &&& final(out)@ == c.rcv.pending().take(n) + old(out)@.skip(n)
                &&& final(self)@ == old(self)@.update(idx as int, Some(c.taken(n)))
                &&& c.taken(n).tcb.same_path(c.tcb)
            }),
    {
        self.at(idx).recv(out)
    }

    /// Close a connection gracefully.
    pub fn close(&mut self, idx: usize, fx: &mut Effects) -> (r: Result<(), Error>)
        requires
            old(self).wf(),
            idx < CONNS,
            old(self)@[idx as int] is Some,
            old(fx).wf(),
        ensures
            final(self).wf(),
            final(fx).wf(),
            ({
                let c = old(self)@[idx as int]->0;
                let (n, f, res) = c.shut(old(fx)@);
                &&& final(self)@ == old(self)@.update(idx as int, Some(n))
                &&& final(fx)@ == f
                &&& r == res
                &&& n.tcb.same_path(c.tcb)
            }),
    {
        self.at(idx).close(fx)
    }

    /// Abort a connection.
    pub fn abort(&mut self, idx: usize, fx: &mut Effects) -> (r: Option<ResetReply>)
        requires
            old(self).wf(),
            idx < CONNS,
            old(self)@[idx as int] is Some,
            old(fx).wf(),
        ensures
            final(self).wf(),
            final(fx).wf(),
            ({
                let c = old(self)@[idx as int]->0;
                let (n, f) = c.closed(CloseReason::Aborted, old(fx)@);
                &&& final(self)@ == old(self)@.update(idx as int, Some(n))
                &&& final(fx)@ == f
                &&& r == c.abort_reset()
                &&& n.tcb.same_path(c.tcb)
            }),
    {
        self.at(idx).abort(fx)
    }

    /// Tell a connection of a hard error on its path.
    pub fn on_unreachable(&mut self, idx: usize, fx: &mut Effects)
        requires
            old(self).wf(),
            idx < CONNS,
            old(self)@[idx as int] is Some,
            old(fx).wf(),
        ensures
            final(self).wf(),
            final(fx).wf(),
            ({
                let c = old(self)@[idx as int]->0;
                let (n, f) = c.unreachable(old(fx)@);
                &&& final(self)@ == old(self)@.update(idx as int, Some(n))
                &&& final(fx)@ == f
                &&& n.tcb.same_path(c.tcb)
            }),
    {
        fail_path(self.at(idx), fx);
    }

    /// Tell a connection of a path MSS.
    pub fn on_pmtu_change(&mut self, idx: usize, now: Instant, mss: u16)
        requires
            old(self).wf(),
            idx < CONNS,
            old(self)@[idx as int] is Some,
        ensures
            final(self).wf(),
            final(self)@ == old(self)@.update(
                idx as int,
                Some(old(self)@[idx as int]->0.path_shrunk(now, mss)),
            ),
    {
        self.at(idx).on_pmtu_change(now, mss);
    }

    /// Age a connection's path estimate and recompute its timers.
    pub fn refresh(&mut self, idx: usize, now: Instant)
        requires
            old(self).wf(),
            idx < CONNS,
            old(self)@[idx as int] is Some,
        ensures
            final(self).wf(),
            final(self)@ == old(self)@.update(
                idx as int,
                Some(old(self)@[idx as int]->0.path_aged(now).timers_updated(now)),
            ),
    {
        let c = self.at(idx);
        c.maybe_age_pmtu(now);
        c.update_send_timers(now);
    }

    /// Record whether the application knows of a connection.
    pub fn set_reported(&mut self, idx: usize, reported: bool)
        requires
            old(self).wf(),
            idx < CONNS,
            old(self)@[idx as int] is Some,
        ensures
            final(self).wf(),
            ({
                let c = old(self)@[idx as int]->0;
                final(self)@ == old(self)@.update(
                    idx as int,
                    Some(c.with(Tcb { reported, ..c.tcb })),
                )
            }),
    {
        self.at(idx).set_reported(reported);
    }

    /// Grant a connection a challenge ACK.
    pub fn grant_challenge(&mut self, idx: usize)
        requires
            old(self).wf(),
            idx < CONNS,
            old(self)@[idx as int] is Some,
        ensures
            final(self).wf(),
            ({
                let c = old(self)@[idx as int]->0;
                final(self)@ == old(self)@.update(idx as int, Some(c.with(c.tcb.ack_now())))
            }),
    {
        self.at(idx).grant_challenge();
    }
}

/// Tell a connection of a hard error on its path.
fn fail_path<const SND: usize, const RCV: usize>(c: &mut Connection<SND, RCV>, fx: &mut Effects)
    requires
        old(c).wf(),
        old(fx).wf(),
    ensures
        (final(c)@, final(fx)@) == old(c)@.unreachable(old(fx)@),
        final(c).wf(),
        final(fx).wf(),
{
    c.on_icmp_unreachable(fx);
}

} // verus!
