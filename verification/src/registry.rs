//! The client registry: one session per connected client address.
//!
//! The registry is owned and mutated only by the dispatch loop. Connecting
//! is idempotent (an existing session is reused, never duplicated), receives
//! for unknown addresses are discarded, disconnecting removes the session in
//! the same step, and ticking releases every session's due packets exactly
//! once per step.

use vstd::prelude::*;

use crate::addr::ClientAddress;
use crate::packet::{
    DelayedPacket, Destination, Forward, ForwardModel, PacketModel, forward_models, forward_of,
    packet_models,
};
use crate::queue::{enqueued, release_sorted};
use crate::session::{
    Session, SessionModel, SessionState, due_of, new_session_model, session_after_packet, ticked,
};

verus! {

/// No two sessions share an address.
pub open spec fn unique_addresses(s: Seq<SessionModel>) -> bool {
    forall|i: int, j: int| 0 <= i < j < s.len() ==> s[i].address != s[j].address
}

/// Every registered session has a sorted queue and is not `Closed`: closed
/// sessions leave the registry in the step that closes them.
pub open spec fn sessions_wf(s: Seq<SessionModel>) -> bool {
    forall|i: int|
        0 <= i < s.len() ==> release_sorted(#[trigger] s[i].pending) && !(s[i].state is Closed)
}

/// Whether some session is registered for `address`.
pub open spec fn has_addr(s: Seq<SessionModel>, address: ClientAddress) -> bool {
    exists|i: int| 0 <= i < s.len() && s[i].address == address
}

/// Index of the first session registered for `address` (the only one, when
/// addresses are unique); the length when there is none.
pub open spec fn addr_index(s: Seq<SessionModel>, address: ClientAddress) -> int
    decreases s.len(),
{
    if s.len() == 0 {
        0
    } else if s[0].address == address {
        0
    } else {
        1 + addr_index(s.drop_first(), address)
    }
}

/// `addr_index` is the unique boundary: no match before it, a match at it
/// when one exists at all.
pub proof fn lemma_addr_index_at(s: Seq<SessionModel>, address: ClientAddress, i: int)
    requires
        0 <= i <= s.len(),
        forall|j: int| 0 <= j < i ==> s[j].address != address,
        i < s.len() ==> s[i].address == address,
    ensures
        addr_index(s, address) == i,
    decreases s.len(),
{
    if s.len() == 0 {
    } else if i == 0 {
    } else {
        assert(forall|j: int| 0 <= j < i - 1 ==> s.drop_first()[j] == s[j + 1]);
        lemma_addr_index_at(s.drop_first(), address, i - 1);
    }
}

/// When `address` is registered, `addr_index` finds its first session.
pub proof fn lemma_addr_index_finds(s: Seq<SessionModel>, address: ClientAddress)
    requires
        has_addr(s, address),
    ensures
        0 <= addr_index(s, address) < s.len(),
        s[addr_index(s, address)].address == address,
        forall|j: int| 0 <= j < addr_index(s, address) ==> s[j].address != address,
    decreases s.len(),
{
    if s[0].address == address {
    } else {
        let i = choose|i: int| 0 <= i < s.len() && s[i].address == address;
        assert(s.drop_first()[i - 1] == s[i]);
        lemma_addr_index_finds(s.drop_first(), address);
        let k = addr_index(s.drop_first(), address);
        assert(s[k + 1] == s.drop_first()[k]);
        assert(forall|j: int| 1 <= j < k + 1 ==> s[j] == s.drop_first()[j - 1]);
    }
}

/// What delivering one packet does to the registry: the packet joins the
/// queue of the session registered for `address`, and a packet from an
/// unknown address is silently discarded.
pub open spec fn delivered(
    r: Seq<SessionModel>,
    address: ClientAddress,
    channel: u8,
    payload: Seq<u8>,
    release_at: u64,
    destination: Destination,
) -> Seq<SessionModel> {
    if has_addr(r, address) {
        let i = addr_index(r, address);
        r.update(i, session_after_packet(r[i], channel, payload, release_at, destination))
    } else {
        r
    }
}

/// The sessions after every one is ticked once at `now`.
pub open spec fn ticked_all(r: Seq<SessionModel>, now: u64) -> Seq<SessionModel> {
    r.map_values(|m: SessionModel| ticked(m, now))
}

/// The forwards releasing the packets `ps` of the session at `address`.
pub open spec fn forwards_for(address: ClientAddress, ps: Seq<PacketModel>) -> Seq<ForwardModel> {
    ps.map_values(|p: PacketModel| forward_of(address, p))
}

/// The forwards of one session's tick at `now`, in queue order.
pub open spec fn forwards_of(m: SessionModel, now: u64) -> Seq<ForwardModel> {
    forwards_for(m.address, due_of(m, now))
}

/// The forwards of ticking every session once at `now`, in registry order.
pub open spec fn all_forwards(r: Seq<SessionModel>, now: u64) -> Seq<ForwardModel>
    decreases r.len(),
{
    if r.len() == 0 {
        Seq::empty()
    } else {
        forwards_of(r[0], now) + all_forwards(r.drop_first(), now)
    }
}

/// Ticking a session appended at the back appends its forwards at the back.
pub proof fn lemma_all_forwards_push(r: Seq<SessionModel>, m: SessionModel, now: u64)
    ensures
        all_forwards(r.push(m), now) == all_forwards(r, now) + forwards_of(m, now),
    decreases r.len(),
{
    if r.len() == 0 {
        let p = r.push(m);
        assert(p[0] == m);
        assert(p.drop_first() =~= Seq::<SessionModel>::empty());
        assert(all_forwards(p.drop_first(), now) == Seq::<ForwardModel>::empty());
        assert(all_forwards(p, now) == forwards_of(m, now) + Seq::<ForwardModel>::empty());
        assert(all_forwards(r, now) == Seq::<ForwardModel>::empty());
        assert(all_forwards(p, now) =~= all_forwards(r, now) + forwards_of(m, now));
    } else {
        assert(r.push(m)[0] == r[0]);
        assert(r.push(m).drop_first() =~= r.drop_first().push(m));
        lemma_all_forwards_push(r.drop_first(), m, now);
        assert(all_forwards(r.push(m), now) =~= all_forwards(r, now) + forwards_of(m, now));
    }
}

/// Every forward names the address of some registered session.
pub proof fn lemma_all_forwards_addressed(r: Seq<SessionModel>, now: u64)
    ensures
        forall|i: int|
            0 <= i < all_forwards(r, now).len() ==> has_addr(
                r,
                #[trigger] all_forwards(r, now)[i].address,
            ),
    decreases r.len(),
{
    if r.len() > 0 {
        lemma_all_forwards_addressed(r.drop_first(), now);
        let head = forwards_of(r[0], now);
        let tail = all_forwards(r.drop_first(), now);
        assert forall|i: int| 0 <= i < all_forwards(r, now).len() implies has_addr(
            r,
            #[trigger] all_forwards(r, now)[i].address,
        ) by {
            if i < head.len() {
                assert(all_forwards(r, now)[i] == head[i]);
                assert(head[i].address == r[0].address);
            } else {
                let j = i - head.len();
                assert(all_forwards(r, now)[i] == tail[j]);
                assert(has_addr(r.drop_first(), tail[j].address));
                let w = choose|w: int|
                    0 <= w < r.drop_first().len() && r.drop_first()[w].address == tail[j].address;
                assert(r[w + 1] == r.drop_first()[w]);
            }
        }
    }
}

/// Ticking every session preserves which addresses are registered, their
/// order, and uniqueness: only queues shrink.
pub proof fn lemma_ticked_all_addresses(r: Seq<SessionModel>, now: u64)
    ensures
        ticked_all(r, now).len() == r.len(),
        forall|i: int| 0 <= i < r.len() ==> #[trigger] ticked_all(r, now)[i].address == r[i].address,
        forall|a: ClientAddress| has_addr(ticked_all(r, now), a) == has_addr(r, a),
        unique_addresses(r) ==> unique_addresses(ticked_all(r, now)),
{
    let t = ticked_all(r, now);
    assert forall|a: ClientAddress| has_addr(t, a) == has_addr(r, a) by {
        if has_addr(r, a) {
            let w = choose|w: int| 0 <= w < r.len() && r[w].address == a;
            assert(t[w].address == a);
        }
        if has_addr(t, a) {
            let w = choose|w: int| 0 <= w < t.len() && t[w].address == a;
            assert(r[w].address == a);
        }
    }
}

/// The client registry: the sessions of the currently connected clients.
pub struct Registry {
    sessions: Vec<Session>,
}

impl View for Registry {
    type V = Seq<SessionModel>;

    closed spec fn view(&self) -> Seq<SessionModel> {
        self.sessions@.map_values(|s: Session| s@)
    }
}

impl Registry {
    /// The registry's invariant: unique addresses, well-formed live sessions.
    pub open spec fn wf(self) -> bool {
        unique_addresses(self@) && sessions_wf(self@)
    }

    pub fn new() -> (r: Registry)
        ensures
            r@ == Seq::<SessionModel>::empty(),
            r.wf(),
    {
        let r = Registry { sessions: Vec::new() };
        proof {
            assert(r@ =~= Seq::<SessionModel>::empty());
        }
        r
    }

    pub fn len(&self) -> (n: usize)
        ensures
            n == self@.len(),
    {
        self.sessions.len()
    }

    /// Index of the session for `address`, if one is registered.
    fn find(&self, address: ClientAddress) -> (r: Option<usize>)
        ensures
            match r {
                Some(i) => has_addr(self@, address) && i as int == addr_index(self@, address) && i
                    < self@.len() && self@[i as int].address == address,
                None => !has_addr(self@, address),
            },
    {
        let mut i: usize = 0;
        while i < self.sessions.len()
            invariant
                i <= self.sessions.len(),
                self.sessions@.len() == self@.len(),
                forall|j: int| 0 <= j < i ==> self@[j].address != address,
            decreases self.sessions.len() - i,
        {
            if self.sessions[i].address == address {
                proof {
                    lemma_addr_index_at(self@, address, i as int);
                }
                return Some(i);
            }
            i += 1;
        }
        None
    }

    pub fn contains(&self, address: ClientAddress) -> (b: bool)
        ensures
            b == has_addr(self@, address),
    {
        match self.find(address) {
            Some(_) => true,
            None => false,
        }
    }

    /// The lifecycle state of the session for `address`, if one is
    /// registered.
    pub fn state_of(&self, address: ClientAddress) -> (r: Option<SessionState>)
        ensures
            match r {
                Some(st) => has_addr(self@, address) && st == self@[addr_index(
                    self@,
                    address,
                )].state,
                None => !has_addr(self@, address),
            },
    {
        match self.find(address) {
            Some(i) => Some(self.sessions[i].state),
            None => None,
        }
    }

    /// How many packets the session for `address` is holding back, if one is
    /// registered.
    pub fn pending_count(&self, address: ClientAddress) -> (r: Option<usize>)
        ensures
            match r {
                Some(n) => has_addr(self@, address) && n == self@[addr_index(
                    self@,
                    address,
                )].pending.len(),
                None => !has_addr(self@, address),
            },
    {
        match self.find(address) {
            Some(i) => Some(self.sessions[i].pending.len()),
            None => None,
        }
    }

    /// Register a session for a connecting client. Idempotent: a second
    /// connect for the same address reuses the existing session untouched,
    /// so one client never gets two sessions.
    pub fn connect(&mut self, address: ClientAddress, inbound_handle: u64) -> (created: bool)
        requires
            old(self).wf(),
        ensures
            final(self).wf(),
            created == !has_addr(old(self)@, address),
            created ==> final(self)@ == old(self)@.push(new_session_model(address, inbound_handle)),
            !created ==> final(self)@ == old(self)@,
            has_addr(final(self)@, address),
    {
        let ghost r0 = self@;
        match self.find(address) {
            Some(_) => false,
            None => {
                self.sessions.push(Session::new(address, inbound_handle));
                proof {
                    let m = new_session_model(address, inbound_handle);
                    assert(self@ =~= r0.push(m));
                    assert(self@[r0.len() as int].address == address);
                    assert forall|i: int, j: int| 0 <= i < j < self@.len() implies self@[i].address
                        != self@[j].address by {
                        if j < r0.len() {
                            assert(self@[i] == r0[i] && self@[j] == r0[j]);
                        } else {
                            assert(self@[i] == r0[i]);
                        }
                    }
                    assert forall|j: int|
                        0 <= j < self@.len() implies release_sorted(#[trigger] self@[j].pending)
                        && !(self@[j].state is Closed) by {
                        if j < r0.len() {
                            assert(self@[j] == r0[j]);
                            assert(release_sorted(r0[j].pending));
                        } else {
                            assert(self@[j] == m);
                            assert(m.pending.len() == 0);
                            assert(release_sorted(m.pending));
                            assert(!(m.state is Closed));
                        }
                    }
                }
                true
            },
        }
    }

    /// Hand a packet from the client at `address` to its session, to be
    /// forwarded to the backend after the configured delay. A packet from an
    /// unknown address is silently discarded: stale or racing traffic, not
    /// an error.
    pub fn receive(
        &mut self,
        address: ClientAddress,
        channel: u8,
        payload: Vec<u8>,
        now: u64,
        delay: u64,
    )
        requires
            old(self).wf(),
            now + delay <= u64::MAX,
        ensures
            final(self).wf(),
            final(self)@ == delivered(
                old(self)@,
                address,
                channel,
                payload@,
                (now + delay) as u64,
                Destination::ToBackend,
            ),
    {
        self.deliver(address, channel, payload, now, delay, true);
    }

    /// Hand a backend response for the client at `address` to its session,
    /// to be forwarded back to the client after the same configured delay.
    pub fn backend_response(
        &mut self,
        address: ClientAddress,
        channel: u8,
        payload: Vec<u8>,
        now: u64,
        delay: u64,
    )
        requires
            old(self).wf(),
            now + delay <= u64::MAX,
        ensures
            final(self).wf(),
            final(self)@ == delivered(
                old(self)@,
                address,
                channel,
                payload@,
                (now + delay) as u64,
                Destination::ToClient,
            ),
    {
        self.deliver(address, channel, payload, now, delay, false);
    }

    /// Common path of `receive` and `backend_response`.
    fn deliver(
        &mut self,
        address: ClientAddress,
        channel: u8,
        payload: Vec<u8>,
        now: u64,
        delay: u64,
        to_backend: bool,
    )
        requires
            old(self).wf(),
            now + delay <= u64::MAX,
        ensures
            final(self).wf(),
            final(self)@ == delivered(
                old(self)@,
                address,
                channel,
                payload@,
                (now + delay) as u64,
                if to_backend {
                    Destination::ToBackend
                } else {
                    Destination::ToClient
                },
            ),
    {
        let ghost r0 = self@;
        let ghost dest = if to_backend {
            Destination::ToBackend
        } else {
            Destination::ToClient
        };
        let ghost payload_model = payload@;
        match self.find(address) {
            Some(i) => {
                let ghost items0 = self.sessions@;
                let mut s = self.sessions.remove(i);
                if to_backend {
                    s.on_receive(channel, payload, now, delay);
                } else {
                    s.on_backend_response(channel, payload, now, delay);
                }
                let ghost sv = s;
                self.sessions.insert(i, s);
                proof {
                    let i = i as int;
                    let m = session_after_packet(
                        r0[i],
                        channel,
                        payload_model,
                        (now + delay) as u64,
                        dest,
                    );
                    assert(sv@ == m);
                    items0.remove_ensures(i);
                    items0.remove(i).insert_ensures(i, sv);
                    let updated = r0.update(i, m);
                    assert forall|j: int| 0 <= j < self@.len() implies self@[j] == updated[j] by {
                        if j < i {
                            assert(self.sessions@[j] == items0.remove(i)[j]);
                            assert(items0.remove(i)[j] == items0[j]);
                        } else if j > i {
                            assert(self.sessions@[j] == items0.remove(i)[j - 1]);
                            assert(items0.remove(i)[j - 1] == items0[j]);
                        } else {
                            assert(self.sessions@[j] == sv);
                        }
                    }
                    assert(self@ =~= r0.update(i, m));
                    assert forall|a: int, b: int| 0 <= a < b < self@.len() implies self@[a].address
                        != self@[b].address by {
                        assert(self@[a].address == r0[a].address);
                        assert(self@[b].address == r0[b].address);
                    }
                    assert(release_sorted(r0[i].pending));
                    crate::queue::lemma_enqueued_sorted(
                        r0[i].pending,
                        PacketModel {
                            payload: payload_model,
                            channel,
                            release_at: (now + delay) as u64,
                            destination: dest,
                        },
                    );
                    assert forall|j: int|
                        0 <= j < self@.len() implies release_sorted(#[trigger] self@[j].pending)
                        && !(self@[j].state is Closed) by {
                        if j != i {
                            assert(self@[j] == r0[j]);
                        } else {
                            assert(self@[j] == m);
                            assert(m.pending == enqueued(
                                r0[i].pending,
                                PacketModel {
                                    payload: payload_model,
                                    channel,
                                    release_at: (now + delay) as u64,
                                    destination: dest,
                                },
                            ));
                            assert(release_sorted(m.pending));
                            assert(!(m.state is Closed));
                        }
                    }
                }
            },
            None => {},
        }
    }

    /// Remove the session for `address`, closing it first: its pending
    /// packets are discarded, never forwarded, and no tick can reach it
    /// afterwards. Unknown addresses are ignored.
    pub fn disconnect(&mut self, address: ClientAddress) -> (existed: bool)
        requires
            old(self).wf(),
        ensures
            final(self).wf(),
            existed == has_addr(old(self)@, address),
            existed ==> final(self)@ == old(self)@.remove(addr_index(old(self)@, address)),
            !existed ==> final(self)@ == old(self)@,
            !has_addr(final(self)@, address),
    {
        let ghost r0 = self@;
        match self.find(address) {
            Some(i) => {
                let ghost items0 = self.sessions@;
                let mut s = self.sessions.remove(i);
                s.disconnect();
                proof {
                    let i = i as int;
                    items0.remove_ensures(i);
                    let removed = r0.remove(i);
                    assert forall|j: int| 0 <= j < self@.len() implies self@[j] == removed[j] by {
                        if j < i {
                            assert(self.sessions@[j] == items0[j]);
                        } else {
                            assert(self.sessions@[j] == items0[j + 1]);
                        }
                    }
                    assert(self@ =~= r0.remove(i));
                    assert forall|j: int| 0 <= j < self@.len() implies self@[j].address
                        != address by {
                        if j < i {
                            assert(self@[j] == r0[j]);
                        } else {
                            assert(self@[j] == r0[j + 1]);
                        }
                    }
                    assert forall|a: int, b: int| 0 <= a < b < self@.len() implies self@[a].address
                        != self@[b].address by {
                        if b < i {
                        } else if a < i {
                            assert(self@[a] == r0[a] && self@[b] == r0[b + 1]);
                        } else {
                            assert(self@[a] == r0[a + 1] && self@[b] == r0[b + 1]);
                        }
                    }
                }
                true
            },
            None => false,
        }
    }

    /// Tick every session exactly once at `now`, collecting the released
    /// packets as forwards in registry order.
    pub fn tick_all(&mut self, now: u64) -> (forwards: Vec<Forward>)
        requires
            old(self).wf(),
        ensures
            final(self).wf(),
            final(self)@ == ticked_all(old(self)@, now),
            forward_models(forwards@) == all_forwards(old(self)@, now),
    {
        let ghost r0 = self@;
        let mut out: Vec<Forward> = Vec::new();
        proof {
            assert(forward_models(out@) =~= all_forwards(r0.take(0), now)) by {
                assert(r0.take(0) =~= Seq::<SessionModel>::empty());
            }
        }
        let mut i: usize = 0;
        while i < self.sessions.len()
            invariant
                unique_addresses(r0),
                sessions_wf(r0),
                i <= self.sessions.len(),
                self.sessions@.len() == r0.len(),
                self@.len() == r0.len(),
                forall|j: int| i <= j < r0.len() ==> self@[j] == r0[j],
                forall|j: int| 0 <= j < i ==> self@[j] == ticked(r0[j], now),
                forward_models(out@) == all_forwards(r0.take(i as int), now),
            decreases self.sessions.len() - i,
        {
            let ghost items0 = self.sessions@;
            let ghost view0 = self@;
            let mut s = self.sessions.remove(i);
            proof {
                assert(s@ == r0[i as int]);
            }
            let due = s.tick(now);
            let ghost due_models = packet_models(due@);
            push_forwards(s.address, due, &mut out);
            let ghost sv = s;
            self.sessions.insert(i, s);
            proof {
                let i = i as int;
                items0.remove_ensures(i);
                items0.remove(i).insert_ensures(i, sv);
                assert forall|j: int| i + 1 <= j < r0.len() implies self@[j] == r0[j] by {
                    assert(self.sessions@[j] == items0.remove(i)[j - 1]);
                    assert(items0.remove(i)[j - 1] == items0[j]);
                    assert(self@[j] == items0[j]@);
                    assert(view0[j] == items0[j]@);
                    assert(view0[j] == r0[j]);
                }
                assert forall|j: int| 0 <= j < i implies self@[j] == ticked(r0[j], now) by {
                    assert(self.sessions@[j] == items0.remove(i)[j]);
                    assert(items0.remove(i)[j] == items0[j]);
                    assert(self@[j] == items0[j]@);
                    assert(view0[j] == items0[j]@);
                    assert(view0[j] == ticked(r0[j], now));
                }
                assert(self.sessions@[i] == sv);
                assert(self@[i] == sv@);
                assert(self@[i] == ticked(r0[i], now));
                assert(due_models == due_of(r0[i], now));
                assert(r0.take(i + 1) =~= r0.take(i).push(r0[i]));
                lemma_all_forwards_push(r0.take(i), r0[i], now);
                assert(forwards_for(sv.address, due_models) =~= forwards_of(r0[i], now));
                assert(forward_models(out@) == all_forwards(r0.take(i + 1), now));
            }
            i += 1;
        }
        proof {
            assert(r0.take(r0.len() as int) =~= r0);
            assert(self@ =~= ticked_all(r0, now));
            lemma_ticked_all_addresses(r0, now);
            assert forall|j: int|
                0 <= j < self@.len() implies release_sorted(#[trigger] self@[j].pending) && !(
            self@[j].state is Closed) by {
                assert(self@[j] == ticked(r0[j], now));
                assert(release_sorted(r0[j].pending));
                crate::queue::lemma_first_after_bounds(r0[j].pending, now);
                assert forall|a: int, b: int|
                    0 <= a <= b < self@[j].pending.len() implies self@[j].pending[a].release_at
                    <= self@[j].pending[b].release_at by {
                    let k = crate::queue::first_after(r0[j].pending, now);
                    assert(self@[j].pending[a] == r0[j].pending[k + a]);
                    assert(self@[j].pending[b] == r0[j].pending[k + b]);
                }
            }
        }
        out
    }
}

/// Turn one session's released packets into forwards, in order, appending to
/// `out`.
fn push_forwards(address: ClientAddress, packets: Vec<DelayedPacket>, out: &mut Vec<Forward>)
    ensures
        forward_models(final(out)@) == forward_models(old(out)@) + forwards_for(
            address,
            packet_models(packets@),
        ),
{
    let ghost ps = packets@;
    let ghost out0 = out@;
    let ghost mapped = forwards_for(address, packet_models(ps));
    let mut packets = packets;
    proof {
        assert(packets@ =~= ps.skip(0));
        assert(forward_models(out@) =~= forward_models(out0) + mapped.take(0));
    }
    while packets.len() > 0
        invariant
            packets@.len() <= ps.len(),
            packets@ == ps.skip(ps.len() - packets@.len()),
            mapped == forwards_for(address, packet_models(ps)),
            mapped.len() == ps.len(),
            forward_models(out@) == forward_models(out0) + mapped.take(ps.len() - packets@.len()),
        decreases packets.len(),
    {
        let ghost k = ps.len() - packets@.len();
        let ghost pre = packets@;
        let p = packets.remove(0);
        proof {
            assert(pre[0] == ps.skip(k)[0]);
            assert(ps.skip(k)[0] == ps[k]);
            assert(p@ == ps[k]@);
        }
        let f = Forward {
            address,
            destination: p.destination,
            channel: p.channel,
            payload: p.payload,
        };
        proof {
            assert(f@ == forward_of(address, ps[k]@));
        }
        let ghost outpre = out@;
        out.push(f);
        proof {
            assert(packets@ =~= ps.skip(k + 1));
            let base = forward_models(out0);
            assert(base.len() == out0.len());
            assert(packet_models(ps)[k] == ps[k]@);
            assert(mapped[k] == forward_of(address, ps[k]@));
            assert(forward_models(outpre).len() == outpre.len());
            assert(outpre.len() == base.len() + k);
            assert forall|x: int| 0 <= x < out@.len() implies forward_models(out@)[x] == (base
                + mapped.take(k + 1))[x] by {
                assert(forward_models(out@)[x] == out@[x]@);
                if x < outpre.len() {
                    assert(out@[x] == outpre[x]);
                    assert(forward_models(outpre)[x] == outpre[x]@);
                    assert(forward_models(outpre)[x] == (base + mapped.take(k))[x]);
                    if x < base.len() {
                        assert((base + mapped.take(k))[x] == base[x]);
                        assert((base + mapped.take(k + 1))[x] == base[x]);
                    } else {
                        assert((base + mapped.take(k))[x] == mapped.take(k)[x - base.len()]);
                        assert(mapped.take(k)[x - base.len()] == mapped[x - base.len()]);
                        assert((base + mapped.take(k + 1))[x] == mapped.take(k + 1)[x
                            - base.len()]);
                        assert(mapped.take(k + 1)[x - base.len()] == mapped[x - base.len()]);
                    }
                } else {
                    assert(out@[x] == f);
                    assert(x == outpre.len());
                    assert((base + mapped.take(k + 1))[x] == mapped.take(k + 1)[k]);
                    assert(mapped.take(k + 1)[k] == mapped[k]);
                }
            }
            assert(forward_models(out@).len() == out@.len());
            assert(forward_models(out@) =~= base + mapped.take(k + 1));
        }
    }
    proof {
        assert(mapped.take(ps.len() as int) =~= mapped);
    }
}

} // verus!
