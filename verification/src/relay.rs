//! The relay and its dispatch step.
//!
//! The dispatch loop is single-threaded and cooperative: each iteration it
//! takes at most one transport event, routes it through the registry, then
//! ticks every remaining session exactly once. The transport work itself
//! (polling, sending, closing connections) is left to the caller, which
//! performs the sends and connection changes each step hands back.

use vstd::prelude::*;

use crate::addr::ClientAddress;
use crate::packet::{Destination, Forward, forward_models};
use crate::registry::{
    Registry, addr_index, all_forwards, delivered, has_addr, lemma_all_forwards_addressed,
    lemma_ticked_all_addresses, ticked_all, unique_addresses,
};
use crate::session::{SessionModel, new_session_model};

verus! {

/// Static configuration, immutable after the relay is created.
#[derive(Clone, Copy, PartialEq, Eq, Structural, Debug)]
pub struct ServerConfig {
    pub listen_port: u16,
    /// IPv4 address of the backend, in host byte order.
    pub backend_host: u32,
    pub backend_port: u16,
    /// The artificial delay added to every forwarded packet, milliseconds.
    pub delay_ms: u64,
    /// Whether forwarded traffic is relabeled with the originating client's
    /// address (the forwards carry that address either way).
    pub forward_client_ip: bool,
}

/// One transport event, owned by the step that consumes it. `Idle` stands
/// for a poll that timed out with nothing pending: the step still ticks
/// every session, which is what keeps delayed packets flowing when no
/// traffic arrives.
pub enum Event {
    Connect { address: ClientAddress, inbound_handle: u64 },
    Receive { address: ClientAddress, channel: u8, payload: Vec<u8> },
    BackendReceive { address: ClientAddress, channel: u8, payload: Vec<u8> },
    Disconnect { address: ClientAddress },
    Idle,
}

/// What one dispatch step asks of the transport: open the outbound backend
/// connection for a newly registered client, close the one of a departed
/// client, and perform the due sends, in order.
pub struct StepResult {
    pub opened: Option<ClientAddress>,
    pub closed: Option<ClientAddress>,
    pub forwards: Vec<Forward>,
}

/// The registry after one event is routed: connects register (idempotently),
/// receives enqueue into the addressed session, disconnects remove, and
/// everything else leaves the registry alone.
pub open spec fn after_event(r: Seq<SessionModel>, event: Event, now: u64, delay: u64) -> Seq<
    SessionModel,
> {
    match event {
        Event::Connect { address, inbound_handle } => if has_addr(r, address) {
            r
        } else {
            r.push(new_session_model(address, inbound_handle))
        },
        Event::Receive { address, channel, payload } => delivered(
            r,
            address,
            channel,
            payload@,
            (now + delay) as u64,
            Destination::ToBackend,
        ),
        Event::BackendReceive { address, channel, payload } => delivered(
            r,
            address,
            channel,
            payload@,
            (now + delay) as u64,
            Destination::ToClient,
        ),
        Event::Disconnect { address } => if has_addr(r, address) {
            r.remove(addr_index(r, address))
        } else {
            r
        },
        Event::Idle => r,
    }
}

/// The registry after one whole dispatch step: the event is routed, then
/// every remaining session is ticked once.
pub open spec fn step_model(r: Seq<SessionModel>, event: Event, now: u64, delay: u64) -> Seq<
    SessionModel,
> {
    ticked_all(after_event(r, event, now, delay), now)
}

/// The outbound connection a step opens: one, for the client of a connect
/// event not yet registered.
pub open spec fn opened_of(r: Seq<SessionModel>, event: Event) -> Option<ClientAddress> {
    match event {
        Event::Connect { address, .. } => if has_addr(r, address) {
            None
        } else {
            Some(address)
        },
        _ => None,
    }
}

/// The outbound connection a step closes: one, for the client of a
/// disconnect event that was registered.
pub open spec fn closed_of(r: Seq<SessionModel>, event: Event) -> Option<ClientAddress> {
    match event {
        Event::Disconnect { address } => if has_addr(r, address) {
            Some(address)
        } else {
            None
        },
        _ => None,
    }
}

/// The transparent relay: immutable configuration plus the registry of live
/// client sessions, driven by `step`.
pub struct Relay {
    pub config: ServerConfig,
    pub registry: Registry,
}

impl Relay {
    pub open spec fn wf(self) -> bool {
        self.registry.wf()
    }

    /// A relay with no clients yet.
    pub fn new(config: ServerConfig) -> (r: Relay)
        ensures
            r.config == config,
            r.registry@ == Seq::<SessionModel>::empty(),
            r.wf(),
    {
        Relay { config, registry: Registry::new() }
    }

    /// One iteration of the dispatch loop: handle at most one event, then
    /// tick every remaining session exactly once at `now`.
    ///
    /// The contract pins the whole step down: the new registry and the
    /// returned forwards are exactly those of the step model, every forward
    /// is for a still-registered client, and in particular a disconnect
    /// discards the session's pending packets, so nothing is ever forwarded
    /// for the departed client in this step or later ones.
    pub fn step(&mut self, event: Event, now: u64) -> (r: StepResult)
        requires
            old(self).wf(),
            now + old(self).config.delay_ms <= u64::MAX,
        ensures
            final(self).wf(),
            final(self).config == old(self).config,
            final(self).registry@ == step_model(
                old(self).registry@,
                event,
                now,
                old(self).config.delay_ms,
            ),
            forward_models(r.forwards@) == all_forwards(
                after_event(old(self).registry@, event, now, old(self).config.delay_ms),
                now,
            ),
            r.opened == opened_of(old(self).registry@, event),
            r.closed == closed_of(old(self).registry@, event),
            forall|i: int|
                0 <= i < r.forwards@.len() ==> has_addr(
                    final(self).registry@,
                    #[trigger] r.forwards@[i]@.address,
                ),
            event matches Event::Disconnect { address } ==> !has_addr(
                final(self).registry@,
                address,
            ) && forall|i: int| 0 <= i < r.forwards@.len() ==> r.forwards@[i]@.address != address,
    {
        let ghost r0 = self.registry@;
        let ghost ev = event;
        let delay = self.config.delay_ms;
        let mut opened: Option<ClientAddress> = None;
        let mut closed: Option<ClientAddress> = None;
        match event {
            Event::Connect { address, inbound_handle } => {
                let created = self.registry.connect(address, inbound_handle);
                if created {
                    opened = Some(address);
                }
            },
            Event::Receive { address, channel, payload } => {
                self.registry.receive(address, channel, payload, now, delay);
            },
            Event::BackendReceive { address, channel, payload } => {
                self.registry.backend_response(address, channel, payload, now, delay);
            },
            Event::Disconnect { address } => {
                let existed = self.registry.disconnect(address);
                if existed {
                    closed = Some(address);
                }
            },
            Event::Idle => {},
        }
        proof {
            assert(self.registry@ == after_event(r0, ev, now, delay));
            assert(opened == opened_of(r0, ev));
            assert(closed == closed_of(r0, ev));
        }
        let ghost mid = self.registry@;
        let forwards = self.registry.tick_all(now);
        proof {
            lemma_all_forwards_addressed(mid, now);
            lemma_ticked_all_addresses(mid, now);
            assert forall|i: int| 0 <= i < forwards@.len() implies has_addr(
                self.registry@,
                #[trigger] forwards@[i]@.address,
            ) by {
                assert(forwards@[i]@ == forward_models(forwards@)[i]);
                assert(has_addr(mid, forward_models(forwards@)[i].address));
            }
            match ev {
                Event::Disconnect { address } => {
                    assert(!has_addr(mid, address));
                    assert forall|i: int| 0 <= i < forwards@.len() implies forwards@[i]@.address
                        != address by {
                        assert(forwards@[i]@ == forward_models(forwards@)[i]);
                        assert(has_addr(mid, forward_models(forwards@)[i].address));
                    }
                },
                _ => {},
            }
        }
        StepResult { opened, closed, forwards }
    }
}

/// How one event changes whether `address` has an open connection: its
/// connects open it, its disconnects close it, everything else leaves it.
pub open spec fn open_update(open_now: bool, event: Event, address: ClientAddress) -> bool {
    match event {
        Event::Connect { address: a, .. } => if a == address {
            true
        } else {
            open_now
        },
        Event::Disconnect { address: a } => if a == address {
            false
        } else {
            open_now
        },
        _ => open_now,
    }
}

/// Whether `address` has an open connection after `events`, starting from
/// `open_now`: true exactly when its last connect/disconnect event in
/// `events` is a connect (or there is none and it started open).
pub open spec fn open_through(open_now: bool, events: Seq<Event>, address: ClientAddress) -> bool
    decreases events.len(),
{
    if events.len() == 0 {
        open_now
    } else {
        open_through(open_update(open_now, events[0], address), events.drop_first(), address)
    }
}

/// The registry model after a whole sequence of dispatch steps, one event
/// per step, the step at index `i` running at time `times[i]`.
pub open spec fn run_model(
    r: Seq<SessionModel>,
    events: Seq<Event>,
    times: Seq<u64>,
    delay: u64,
) -> Seq<SessionModel>
    decreases events.len(),
{
    if events.len() == 0 {
        r
    } else {
        run_model(
            step_model(r, events[0], times[0], delay),
            events.drop_first(),
            times.drop_first(),
            delay,
        )
    }
}

/// One step keeps addresses unique and changes membership exactly as the
/// event's lifecycle meaning says.
proof fn lemma_step_model_membership(
    r: Seq<SessionModel>,
    event: Event,
    now: u64,
    delay: u64,
    address: ClientAddress,
)
    requires
        unique_addresses(r),
    ensures
        unique_addresses(step_model(r, event, now, delay)),
        has_addr(step_model(r, event, now, delay), address) == open_update(
            has_addr(r, address),
            event,
            address,
        ),
{
    let mid = after_event(r, event, now, delay);
    lemma_after_event_membership(r, event, now, delay, address);
    lemma_ticked_all_addresses(mid, now);
}

/// Routing one event keeps addresses unique and changes membership exactly
/// as the event's lifecycle meaning says.
proof fn lemma_after_event_membership(
    r: Seq<SessionModel>,
    event: Event,
    now: u64,
    delay: u64,
    address: ClientAddress,
)
    requires
        unique_addresses(r),
    ensures
        unique_addresses(after_event(r, event, now, delay)),
        has_addr(after_event(r, event, now, delay), address) == open_update(
            has_addr(r, address),
            event,
            address,
        ),
{
    let s = after_event(r, event, now, delay);
    match event {
        Event::Connect { address: a, inbound_handle } => {
            if has_addr(r, a) {
            } else {
                assert(s == r.push(new_session_model(a, inbound_handle)));
                assert(s[r.len() as int].address == a);
                assert forall|x: int, y: int| 0 <= x < y < s.len() implies s[x].address
                    != s[y].address by {
                    if y < r.len() {
                        assert(s[x] == r[x] && s[y] == r[y]);
                    } else {
                        assert(s[x] == r[x]);
                    }
                }
                if address == a {
                } else {
                    assert forall|w: int|
                        0 <= w < s.len() && s[w].address == address implies has_addr(
                        r,
                        address,
                    ) by {
                        assert(w < r.len());
                        assert(r[w] == s[w]);
                    }
                    assert forall|w: int|
                        0 <= w < r.len() && r[w].address == address implies has_addr(
                        s,
                        address,
                    ) by {
                        assert(s[w] == r[w]);
                    }
                }
            }
        },
        Event::Receive { address: a, channel, payload } => {
            lemma_delivered_membership(
                r,
                a,
                channel,
                payload@,
                (now + delay) as u64,
                Destination::ToBackend,
                address,
            );
        },
        Event::BackendReceive { address: a, channel, payload } => {
            lemma_delivered_membership(
                r,
                a,
                channel,
                payload@,
                (now + delay) as u64,
                Destination::ToClient,
                address,
            );
        },
        Event::Disconnect { address: a } => {
            if has_addr(r, a) {
                crate::registry::lemma_addr_index_finds(r, a);
                let i = addr_index(r, a);
                assert(s == r.remove(i));
                r.remove_ensures(i);
                assert forall|x: int, y: int| 0 <= x < y < s.len() implies s[x].address
                    != s[y].address by {
                    if y < i {
                    } else if x < i {
                        assert(s[x] == r[x] && s[y] == r[y + 1]);
                    } else {
                        assert(s[x] == r[x + 1] && s[y] == r[y + 1]);
                    }
                }
                if address == a {
                    assert forall|w: int|
                        0 <= w < s.len() implies #[trigger] s[w].address != address by {
                        if w < i {
                            assert(s[w] == r[w]);
                        } else {
                            assert(s[w] == r[w + 1]);
                        }
                    }
                } else {
                    if has_addr(r, address) {
                        let w = choose|w: int| 0 <= w < r.len() && r[w].address == address;
                        if w < i {
                            assert(s[w] == r[w]);
                        } else {
                            assert(w > i);
                            assert(s[w - 1] == r[w]);
                        }
                    }
                    if has_addr(s, address) {
                        let w = choose|w: int| 0 <= w < s.len() && s[w].address == address;
                        if w < i {
                            assert(s[w] == r[w]);
                        } else {
                            assert(s[w] == r[w + 1]);
                        }
                    }
                }
            }
        },
        Event::Idle => {},
    }
}

/// Delivering a packet touches one session in place: membership and
/// uniqueness are untouched.
proof fn lemma_delivered_membership(
    r: Seq<SessionModel>,
    to: ClientAddress,
    channel: u8,
    payload: Seq<u8>,
    release_at: u64,
    destination: Destination,
    address: ClientAddress,
)
    requires
        unique_addresses(r),
    ensures
        unique_addresses(delivered(r, to, channel, payload, release_at, destination)),
        has_addr(delivered(r, to, channel, payload, release_at, destination), address) == has_addr(
            r,
            address,
        ),
{
    let s = delivered(r, to, channel, payload, release_at, destination);
    if has_addr(r, to) {
        crate::registry::lemma_addr_index_finds(r, to);
        assert(s.len() == r.len());
        assert(forall|w: int| 0 <= w < s.len() ==> #[trigger] s[w].address == r[w].address);
        if has_addr(r, address) {
            let w = choose|w: int| 0 <= w < r.len() && r[w].address == address;
            assert(s[w].address == address);
        }
        if has_addr(s, address) {
            let w = choose|w: int| 0 <= w < s.len() && s[w].address == address;
            assert(r[w].address == address);
        }
    }
}

/// Running a sequence of steps keeps addresses unique, and an address is
/// registered afterwards exactly when the events say its connection is open.
proof fn lemma_run_model_membership(
    r: Seq<SessionModel>,
    events: Seq<Event>,
    times: Seq<u64>,
    delay: u64,
    address: ClientAddress,
)
    requires
        unique_addresses(r),
        times.len() == events.len(),
    ensures
        unique_addresses(run_model(r, events, times, delay)),
        has_addr(run_model(r, events, times, delay), address) == open_through(
            has_addr(r, address),
            events,
            address,
        ),
    decreases events.len(),
{
    if events.len() > 0 {
        lemma_step_model_membership(r, events[0], times[0], delay, address);
        lemma_run_model_membership(
            step_model(r, events[0], times[0], delay),
            events.drop_first(),
            times.drop_first(),
            delay,
        address,
        );
    }
}

/// Appending one event to a history updates openness by that event alone:
/// the last connect or disconnect for an address decides whether it is open.
pub proof fn lemma_open_through_snoc(
    open_now: bool,
    events: Seq<Event>,
    event: Event,
    address: ClientAddress,
)
    ensures
        open_through(open_now, events.push(event), address) == open_update(
            open_through(open_now, events, address),
            event,
            address,
        ),
    decreases events.len(),
{
    reveal_with_fuel(open_through, 3);
    if events.len() == 0 {
        assert(events.push(event)[0] == event);
        assert(events.push(event).drop_first() =~= Seq::<Event>::empty());
    } else {
        assert(events.push(event)[0] == events[0]);
        assert(events.push(event).drop_first() =~= events.drop_first().push(event));
        lemma_open_through_snoc(
            open_update(open_now, events[0], address),
            events.drop_first(),
            event,
            address,
        );
    }
}

/// Once a client is gone from the registry, no step forwards anything for
/// it — even a step that ticks every session — unless the event is a new
/// connect for that very address. With the membership law this is what
/// makes a disconnect final: the session's pending packets were discarded
/// with it, and nothing is forwarded for the address afterwards.
pub proof fn lemma_no_forwards_for_unregistered(
    r: Seq<SessionModel>,
    event: Event,
    now: u64,
    delay: u64,
    address: ClientAddress,
)
    requires
        unique_addresses(r),
        !has_addr(r, address),
        !open_update(false, event, address),
    ensures
        !has_addr(step_model(r, event, now, delay), address),
        forall|i: int|
            0 <= i < all_forwards(after_event(r, event, now, delay), now).len()
                ==> #[trigger] all_forwards(after_event(r, event, now, delay), now)[i].address
                != address,
{
    let mid = after_event(r, event, now, delay);
    lemma_after_event_membership(r, event, now, delay, address);
    lemma_ticked_all_addresses(mid, now);
    lemma_all_forwards_addressed(mid, now);
}

/// Over every sequence of connect/receive/disconnect events, the registry
/// never holds two sessions for one address, and it holds exactly the
/// addresses with an open, not yet disconnected connection: those whose last
/// lifecycle event was a connect.
pub proof fn lemma_registry_tracks_open_connections(
    events: Seq<Event>,
    times: Seq<u64>,
    delay: u64,
    address: ClientAddress,
)
    requires
        times.len() == events.len(),
    ensures
        unique_addresses(run_model(Seq::empty(), events, times, delay)),
        has_addr(run_model(Seq::empty(), events, times, delay), address) == open_through(
            false,
            events,
            address,
        ),
{
    lemma_run_model_membership(Seq::empty(), events, times, delay, address);
}

} // verus!
