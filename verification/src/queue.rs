//! The delay queue: packets held in release-time order until they are due.
//!
//! Packets are kept sorted by `release_at`, and a packet is inserted after
//! every packet with an equal or smaller release time, so packets with equal
//! release times stay in arrival order (FIFO). Releasing takes the longest
//! due prefix, so release order is release-time order with arrival order
//! breaking ties.

use vstd::prelude::*;

use crate::packet::{DelayedPacket, PacketModel, packet_models};

verus! {

/// The queue's ordering invariant: release times never decrease.
pub open spec fn release_sorted(s: Seq<PacketModel>) -> bool {
    forall|i: int, j: int| 0 <= i <= j < s.len() ==> s[i].release_at <= s[j].release_at
}

/// Index of the first packet whose release time is after `t`; the length of
/// the longest prefix of packets with release time at most `t`.
pub open spec fn first_after(s: Seq<PacketModel>, t: u64) -> int
    decreases s.len(),
{
    if s.len() == 0 {
        0
    } else if s[0].release_at <= t {
        1 + first_after(s.drop_first(), t)
    } else {
        0
    }
}

/// What enqueueing `p` does to the queue's contents: `p` goes after every
/// packet due no later than it, and before the rest.
pub open spec fn enqueued(q: Seq<PacketModel>, p: PacketModel) -> Seq<PacketModel> {
    let k = first_after(q, p.release_at);
    q.take(k).push(p) + q.skip(k)
}

pub proof fn lemma_first_after_bounds(s: Seq<PacketModel>, t: u64)
    ensures
        0 <= first_after(s, t) <= s.len(),
    decreases s.len(),
{
    if s.len() > 0 && s[0].release_at <= t {
        lemma_first_after_bounds(s.drop_first(), t);
    }
}

/// `first_after` is the unique boundary: an index below which everything is
/// due by `t` and at which (if in range) the packet is due after `t`.
pub proof fn lemma_first_after_at(s: Seq<PacketModel>, t: u64, i: int)
    requires
        0 <= i <= s.len(),
        forall|j: int| 0 <= j < i ==> s[j].release_at <= t,
        i < s.len() ==> s[i].release_at > t,
    ensures
        first_after(s, t) == i,
    decreases s.len(),
{
    if s.len() == 0 {
    } else if i == 0 {
    } else {
        assert(s[0].release_at <= t);
        assert(forall|j: int| 0 <= j < i - 1 ==> s.drop_first()[j] == s[j + 1]);
        lemma_first_after_at(s.drop_first(), t, i - 1);
    }
}

/// In a sorted queue, the packets strictly before `first_after(s, t)` are
/// exactly those due by `t`: everything before the boundary is due, and
/// everything at or past it is not. With `release_at == T + D`, this says a
/// packet is released at a tick with `now >= T + D` and never earlier.
pub proof fn lemma_first_after_split(s: Seq<PacketModel>, t: u64)
    requires
        release_sorted(s),
    ensures
        forall|i: int| 0 <= i < first_after(s, t) ==> s[i].release_at <= t,
        forall|i: int| first_after(s, t) <= i < s.len() ==> s[i].release_at > t,
{
    lemma_first_after_bounds(s, t);
    let k = first_after(s, t);
    if k < s.len() {
        lemma_first_after_boundary_due(s, t);
    }
    assert forall|i: int| 0 <= i < k implies s[i].release_at <= t by {
        lemma_first_after_prefix_due(s, t, i);
    }
}

/// Every index before the boundary holds a packet due by `t` (no sortedness
/// needed).
proof fn lemma_first_after_prefix_due(s: Seq<PacketModel>, t: u64, i: int)
    requires
        0 <= i < first_after(s, t),
    ensures
        s[i].release_at <= t,
    decreases s.len(),
{
    lemma_first_after_bounds(s, t);
    if i > 0 {
        lemma_first_after_prefix_due(s.drop_first(), t, i - 1);
    }
}

/// The packet at the boundary, when there is one, is due after `t`.
proof fn lemma_first_after_boundary_due(s: Seq<PacketModel>, t: u64)
    requires
        release_sorted(s),
        first_after(s, t) < s.len(),
    ensures
        s[first_after(s, t)].release_at > t,
    decreases s.len(),
{
    lemma_first_after_bounds(s, t);
    if s.len() > 0 && s[0].release_at <= t {
        assert(release_sorted(s.drop_first())) by {
            assert(forall|i: int, j: int|
                0 <= i <= j < s.drop_first().len() ==> s.drop_first()[i] == s[i + 1]
                    && s.drop_first()[j] == s[j + 1]);
        }
        let k = first_after(s.drop_first(), t);
        lemma_first_after_bounds(s.drop_first(), t);
        assert(first_after(s, t) == 1 + k);
        lemma_first_after_boundary_due(s.drop_first(), t);
        assert(s.drop_first()[k] == s[k + 1]);
    }
}

/// When a tick at `now` releases a sorted queue's due prefix, a packet is
/// in that prefix exactly when its release time has been reached: a packet
/// accepted at time `T` under delay `D` (release time `T + D`) is forwarded
/// at a tick with `now >= T + D`, and never before.
pub proof fn lemma_released_iff_due(s: Seq<PacketModel>, now: u64)
    requires
        release_sorted(s),
    ensures
        forall|i: int|
            0 <= i < s.len() ==> (i < first_after(s, now) <==> s[i].release_at <= now),
{
    lemma_first_after_split(s, now);
}

/// Enqueueing into a sorted queue keeps it sorted.
pub proof fn lemma_enqueued_sorted(q: Seq<PacketModel>, p: PacketModel)
    requires
        release_sorted(q),
    ensures
        release_sorted(enqueued(q, p)),
{
    lemma_first_after_bounds(q, p.release_at);
    lemma_first_after_split(q, p.release_at);
    let k = first_after(q, p.release_at);
    let r = enqueued(q, p);
    assert forall|i: int, j: int| 0 <= i <= j < r.len() implies r[i].release_at
        <= r[j].release_at by {
        assert(forall|m: int| 0 <= m < k ==> r[m] == q[m]);
        assert(r[k] == p);
        assert(forall|m: int| k < m < r.len() ==> r[m] == q[m - 1]);
    }
}

/// A packet due no earlier than everything pending goes to the back of the
/// queue. In particular, packets enqueued with nondecreasing release times
/// (a burst with one configured delay and nondecreasing arrival times) line
/// up in arrival order.
pub proof fn lemma_enqueued_latest_is_push(q: Seq<PacketModel>, p: PacketModel)
    requires
        forall|i: int| 0 <= i < q.len() ==> q[i].release_at <= p.release_at,
    ensures
        enqueued(q, p) == q.push(p),
{
    lemma_first_after_at(q, p.release_at, q.len() as int);
    assert(enqueued(q, p) =~= q.push(p));
}

/// The queue contents after enqueueing each packet of `ps` in turn.
pub open spec fn enqueue_all(q: Seq<PacketModel>, ps: Seq<PacketModel>) -> Seq<PacketModel>
    decreases ps.len(),
{
    if ps.len() == 0 {
        q
    } else {
        enqueue_all(enqueued(q, ps[0]), ps.drop_first())
    }
}

/// A burst of packets with nondecreasing release times (equal configured
/// delay, nondecreasing arrival times) lands behind the queue in arrival
/// order: release order equals arrival order.
pub proof fn lemma_burst_keeps_arrival_order(q: Seq<PacketModel>, ps: Seq<PacketModel>)
    requires
        forall|i: int, j: int| 0 <= i <= j < ps.len() ==> ps[i].release_at <= ps[j].release_at,
        forall|i: int, j: int|
            0 <= i < q.len() && 0 <= j < ps.len() ==> q[i].release_at <= ps[j].release_at,
    ensures
        enqueue_all(q, ps) == q + ps,
    decreases ps.len(),
{
    if ps.len() == 0 {
        assert(enqueue_all(q, ps) =~= q + ps);
    } else {
        let p = ps[0];
        lemma_enqueued_latest_is_push(q, p);
        assert(forall|j: int| 0 <= j < ps.drop_first().len() ==> ps.drop_first()[j] == ps[j + 1]);
        lemma_burst_keeps_arrival_order(q.push(p), ps.drop_first());
        assert(q.push(p) + ps.drop_first() =~= q + ps);
    }
}

/// Packets arriving at an empty queue with nondecreasing release times are
/// held, and hence released, exactly in arrival order.
pub proof fn lemma_release_order_is_arrival_order(ps: Seq<PacketModel>)
    requires
        forall|i: int, j: int| 0 <= i <= j < ps.len() ==> ps[i].release_at <= ps[j].release_at,
    ensures
        enqueue_all(Seq::empty(), ps) == ps,
{
    lemma_burst_keeps_arrival_order(Seq::empty(), ps);
    assert(Seq::<PacketModel>::empty() + ps =~= ps);
}

/// A per-session ordered collection of packets awaiting release.
pub struct DelayQueue {
    items: Vec<DelayedPacket>,
}

impl View for DelayQueue {
    type V = Seq<PacketModel>;

    closed spec fn view(&self) -> Seq<PacketModel> {
        packet_models(self.items@)
    }
}

impl DelayQueue {
    /// The queue's internal invariant.
    pub open spec fn wf(self) -> bool {
        release_sorted(self@)
    }

    pub fn new() -> (q: DelayQueue)
        ensures
            q@ == Seq::<PacketModel>::empty(),
            q.wf(),
    {
        let q = DelayQueue { items: Vec::new() };
        proof {
            assert(q@ =~= Seq::<PacketModel>::empty());
        }
        q
    }

    pub fn len(&self) -> (n: usize)
        ensures
            n == self@.len(),
    {
        self.items.len()
    }

    /// Emptiness check, kept for diagnostics.
    pub fn is_empty(&self) -> (b: bool)
        ensures
            b == (self@.len() == 0),
    {
        self.items.len() == 0
    }

    /// Insert a packet after every packet due no later than it, keeping the
    /// queue sorted and ties in arrival order.
    pub fn enqueue(&mut self, p: DelayedPacket)
        requires
            old(self).wf(),
        ensures
            final(self).wf(),
            final(self)@ == enqueued(old(self)@, p@),
    {
        let ghost q0 = self@;
        let t: u64 = p.release_at;
        let mut idx: usize = 0;
        while idx < self.items.len() && self.items[idx].release_at <= t
            invariant
                self@ == q0,
                idx <= self.items.len(),
                self.items@.len() == q0.len(),
                forall|j: int| 0 <= j < idx ==> q0[j].release_at <= t,
            decreases self.items.len() - idx,
        {
            idx += 1;
        }
        proof {
            lemma_first_after_at(q0, t, idx as int);
        }
        self.items.insert(idx, p);
        proof {
            assert(self@ =~= enqueued(q0, p@));
            lemma_enqueued_sorted(q0, p@);
        }
    }

    /// Remove and return every packet due by `now`, in queue order: the due
    /// prefix. Nothing with a later release time leaves the queue.
    pub fn pop_due(&mut self, now: u64) -> (due: Vec<DelayedPacket>)
        requires
            old(self).wf(),
        ensures
            final(self).wf(),
            packet_models(due@) == old(self)@.take(first_after(old(self)@, now)),
            final(self)@ == old(self)@.skip(first_after(old(self)@, now)),
            forall|i: int| 0 <= i < due@.len() ==> due@[i]@.release_at <= now,
            forall|i: int| 0 <= i < final(self)@.len() ==> final(self)@[i].release_at > now,
    {
        let ghost q0 = self@;
        let mut due: Vec<DelayedPacket> = Vec::new();
        while self.items.len() > 0 && self.items[0].release_at <= now
            invariant
                release_sorted(q0),
                due@.len() <= q0.len(),
                packet_models(due@) == q0.take(due@.len() as int),
                self@ == q0.skip(due@.len() as int),
                self.items@.len() == q0.len() - due@.len(),
                forall|j: int| 0 <= j < due@.len() ==> due@[j]@.release_at <= now,
            decreases self.items.len(),
        {
            let ghost k = due@.len() as int;
            let ghost pre = self@;
            let ghost pre_due = due@;
            proof {
                assert(self@[0] == q0.skip(k)[0]);
            }
            let p = self.items.remove(0);
            due.push(p);
            proof {
                assert(p@ == pre[0]);
                assert(pre[0] == q0[k]);
                assert forall|j: int| 0 <= j < k + 1 implies packet_models(due@)[j] == q0.take(
                    k + 1,
                )[j] by {
                    if j < k {
                        assert(due@[j] == pre_due[j]);
                        assert(packet_models(due@)[j] == packet_models(pre_due)[j]);
                        assert(packet_models(pre_due)[j] == q0.take(k)[j]);
                    } else {
                        assert(due@[j] == p);
                    }
                }
                assert(packet_models(due@) =~= q0.take(k + 1));
                assert forall|j: int| 0 <= j < self@.len() implies self@[j] == q0.skip(k + 1)[j] by {
                    assert(self@[j] == pre[j + 1]);
                    assert(pre[j + 1] == q0.skip(k)[j + 1]);
                }
                assert(self@ =~= q0.skip(k + 1));
            }
        }
        proof {
            let k = due@.len() as int;
            assert forall|j: int| 0 <= j < k implies q0[j].release_at <= now by {
                assert(due@[j]@ == packet_models(due@)[j]);
            }
            if k < q0.len() {
                assert(self@[0] == q0[k]);
            }
            lemma_first_after_at(q0, now, k);
            lemma_first_after_split(q0, now);
            assert forall|i: int| 0 <= i < self@.len() implies self@[i].release_at > now by {
                assert(self@[i] == q0[k + i]);
            }
        }
        due
    }
}

} // verus!
