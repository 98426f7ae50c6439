//! Packets held back for delayed forwarding.

use vstd::prelude::*;

use crate::addr::ClientAddress;

verus! {

/// Where a relayed packet is headed: to the configured backend (traffic that
/// came in from the client) or back to the originating client (a backend
/// response).
#[derive(Clone, Copy, PartialEq, Eq, Structural, Debug)]
pub enum Destination {
    ToBackend,
    ToClient,
}

/// A packet waiting in a delay queue until its release time.
pub struct DelayedPacket {
    pub payload: Vec<u8>,
    pub channel: u8,
    /// Earliest time (milliseconds, monotonic clock) the packet may be
    /// forwarded.
    pub release_at: u64,
    pub destination: Destination,
}

/// Mathematical model of a `DelayedPacket`.
#[verifier::ext_equal]
pub ghost struct PacketModel {
    pub payload: Seq<u8>,
    pub channel: u8,
    pub release_at: u64,
    pub destination: Destination,
}

impl View for DelayedPacket {
    type V = PacketModel;

    open spec fn view(&self) -> PacketModel {
        PacketModel {
            payload: self.payload@,
            channel: self.channel,
            release_at: self.release_at,
            destination: self.destination,
        }
    }
}

/// The models of a sequence of packets.
pub open spec fn packet_models(s: Seq<DelayedPacket>) -> Seq<PacketModel> {
    s.map_values(|p: DelayedPacket| p@)
}

/// A send the dispatch loop owes the transport: one released packet,
/// labelled with the originating client's address so the collaborator that
/// performs the send (and, when configured, relabels traffic with that
/// address) knows which connection it concerns.
pub struct Forward {
    pub address: ClientAddress,
    pub destination: Destination,
    pub channel: u8,
    pub payload: Vec<u8>,
}

/// Mathematical model of a `Forward`.
#[verifier::ext_equal]
pub ghost struct ForwardModel {
    pub address: ClientAddress,
    pub destination: Destination,
    pub channel: u8,
    pub payload: Seq<u8>,
}

impl View for Forward {
    type V = ForwardModel;

    open spec fn view(&self) -> ForwardModel {
        ForwardModel {
            address: self.address,
            destination: self.destination,
            channel: self.channel,
            payload: self.payload@,
        }
    }
}

/// The forward that releases packet `p` of the session at `address`.
pub open spec fn forward_of(address: ClientAddress, p: PacketModel) -> ForwardModel {
    ForwardModel { address, destination: p.destination, channel: p.channel, payload: p.payload }
}

/// The models of a sequence of forwards.
pub open spec fn forward_models(s: Seq<Forward>) -> Seq<ForwardModel> {
    s.map_values(|f: Forward| f@)
}

} // verus!
