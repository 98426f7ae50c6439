//! Core of a transparent relay for a reliable-UDP client/server protocol.
//!
//! Many clients connect to the relay; their traffic is forwarded to a single
//! configured backend, and backend responses travel back to the originating
//! client. Forwarding is deferred by a configurable artificial delay. The
//! transport itself (sockets, handshakes, retransmission) is an external
//! collaborator: this crate consumes its event stream (connect / receive /
//! disconnect), decides what to do, and hands back the sends to perform.

pub mod addr;
pub mod packet;
pub mod queue;
pub mod session;
pub mod registry;
pub mod relay;
