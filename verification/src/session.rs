//! Per-client relay state for the lifetime of one connection.
//!
//! A session moves `Connecting` -> `Active` on the first packet received
//! from its client and `-> Closed` on disconnect; nothing leaves `Closed`.
//! Traffic in either direction goes through the session's delay queue with a
//! release time of arrival time plus the configured delay, and disconnecting
//! discards whatever is still pending.

use vstd::prelude::*;

use crate::addr::ClientAddress;
use crate::packet::{DelayedPacket, Destination, PacketModel, packet_models};
use crate::queue::{DelayQueue, enqueued, first_after, release_sorted};

verus! {

/// Lifecycle of one client connection; `Closed` is terminal.
#[derive(Clone, Copy, PartialEq, Eq, Structural, Debug)]
pub enum SessionState {
    Connecting,
    Active,
    Closed,
}

/// One client's relay state: its address, the transport's opaque handle for
/// the inbound connection, the lifecycle state, and the packets waiting for
/// release.
pub struct Session {
    pub address: ClientAddress,
    pub inbound_handle: u64,
    pub state: SessionState,
    pub pending: DelayQueue,
}

/// Mathematical model of a `Session`.
#[verifier::ext_equal]
pub ghost struct SessionModel {
    pub address: ClientAddress,
    pub inbound_handle: u64,
    pub state: SessionState,
    pub pending: Seq<PacketModel>,
}

impl View for Session {
    type V = SessionModel;

    open spec fn view(&self) -> SessionModel {
        SessionModel {
            address: self.address,
            inbound_handle: self.inbound_handle,
            state: self.state,
            pending: self.pending@,
        }
    }
}

/// A freshly connected session: `Connecting`, nothing pending.
pub open spec fn new_session_model(address: ClientAddress, inbound_handle: u64) -> SessionModel {
    SessionModel {
        address,
        inbound_handle,
        state: SessionState::Connecting,
        pending: Seq::<PacketModel>::empty(),
    }
}

/// A session after one packet is accepted for delayed forwarding: the packet
/// joins the queue at its release-time position, and traffic from the client
/// (headed to the backend) makes the session `Active`.
pub open spec fn session_after_packet(
    m: SessionModel,
    channel: u8,
    payload: Seq<u8>,
    release_at: u64,
    destination: Destination,
) -> SessionModel {
    SessionModel {
        state: if destination is ToBackend {
            SessionState::Active
        } else {
            m.state
        },
        pending: enqueued(m.pending, PacketModel { payload, channel, release_at, destination }),
        ..m
    }
}

/// A session after one tick at `now`: the due prefix of its queue is gone.
pub open spec fn ticked(m: SessionModel, now: u64) -> SessionModel {
    SessionModel { pending: m.pending.skip(first_after(m.pending, now)), ..m }
}

/// The packets a tick at `now` releases: the due prefix of the queue.
pub open spec fn due_of(m: SessionModel, now: u64) -> Seq<PacketModel> {
    m.pending.take(first_after(m.pending, now))
}

/// A session after disconnect: `Closed`, every pending packet discarded.
pub open spec fn disconnected(m: SessionModel) -> SessionModel {
    SessionModel { state: SessionState::Closed, pending: Seq::<PacketModel>::empty(), ..m }
}

impl Session {
    /// The session's internal invariant: its queue is in release-time order.
    pub open spec fn wf(self) -> bool {
        release_sorted(self@.pending)
    }

    /// Create the session for a newly connected client.
    pub fn new(address: ClientAddress, inbound_handle: u64) -> (s: Session)
        ensures
            s@ == new_session_model(address, inbound_handle),
            s.wf(),
    {
        let s = Session {
            address,
            inbound_handle,
            state: SessionState::Connecting,
            pending: DelayQueue::new(),
        };
        proof {
            assert(s@ =~= new_session_model(address, inbound_handle));
        }
        s
    }

    /// Accept a packet from the client for forwarding to the backend: it is
    /// queued for release at exactly `now + delay`, and the session becomes
    /// `Active`. With delay zero the packet is due at `now` itself, so the
    /// very next tick releases it.
    pub fn on_receive(&mut self, channel: u8, payload: Vec<u8>, now: u64, delay: u64)
        requires
            old(self).wf(),
            !(old(self)@.state is Closed),
            now + delay <= u64::MAX,
        ensures
            final(self).wf(),
            final(self)@ == session_after_packet(
                old(self)@,
                channel,
                payload@,
                (now + delay) as u64,
                Destination::ToBackend,
            ),
    {
        let ghost m0 = self@;
        let ghost payload_model = payload@;
        self.state = SessionState::Active;
        let release_at: u64 = now + delay;
        self.pending.enqueue(
            DelayedPacket { payload, channel, release_at, destination: Destination::ToBackend },
        );
        proof {
            assert(self@ =~= session_after_packet(
                m0,
                channel,
                payload_model,
                release_at,
                Destination::ToBackend,
            ));
        }
    }

    /// Accept a backend response for forwarding back to the client,
    /// symmetrically through the same delay queue; the lifecycle state does
    /// not change.
    pub fn on_backend_response(&mut self, channel: u8, payload: Vec<u8>, now: u64, delay: u64)
        requires
            old(self).wf(),
            !(old(self)@.state is Closed),
            now + delay <= u64::MAX,
        ensures
            final(self).wf(),
            final(self)@ == session_after_packet(
                old(self)@,
                channel,
                payload@,
                (now + delay) as u64,
                Destination::ToClient,
            ),
    {
        let ghost m0 = self@;
        let ghost payload_model = payload@;
        let release_at: u64 = now + delay;
        self.pending.enqueue(
            DelayedPacket { payload, channel, release_at, destination: Destination::ToClient },
        );
        proof {
            assert(self@ =~= session_after_packet(
                m0,
                channel,
                payload_model,
                release_at,
                Destination::ToClient,
            ));
        }
    }

    /// Release every packet due by `now`, in release-time order with arrival
    /// order breaking ties. A packet leaves the queue only here, exactly
    /// once, and never before its release time.
    pub fn tick(&mut self, now: u64) -> (due: Vec<DelayedPacket>)
        requires
            old(self).wf(),
        ensures
            final(self).wf(),
            final(self)@ == ticked(old(self)@, now),
            packet_models(due@) == due_of(old(self)@, now),
            forall|i: int| 0 <= i < due@.len() ==> due@[i]@.release_at <= now,
            forall|i: int|
                0 <= i < final(self)@.pending.len() ==> final(self)@.pending[i].release_at > now,
    {
        let ghost m0 = self@;
        let due = self.pending.pop_due(now);
        proof {
            assert(self@ =~= ticked(m0, now));
        }
        due
    }

    /// Close the session: the state becomes `Closed` and every pending
    /// packet is discarded without being forwarded.
    pub fn disconnect(&mut self)
        ensures
            final(self).wf(),
            final(self)@ == disconnected(old(self)@),
    {
        let ghost m0 = self@;
        self.state = SessionState::Closed;
        self.pending = DelayQueue::new();
        proof {
            assert(self@ =~= disconnected(m0));
        }
    }
}

} // verus!
