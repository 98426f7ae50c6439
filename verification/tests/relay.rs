use enet_relay::addr::{ClientAddress, from_network_order, to_network_order};
use enet_relay::packet::{DelayedPacket, Destination};
use enet_relay::queue::DelayQueue;
use enet_relay::relay::{Event, Relay, ServerConfig};
use enet_relay::session::{Session, SessionState};

fn config(delay_ms: u64) -> ServerConfig {
    ServerConfig {
        listen_port: 17000,
        backend_host: 0x0A00_0001,
        backend_port: 27015,
        delay_ms,
        forward_client_ip: false,
    }
}

fn addr(ip: u32, port: u16) -> ClientAddress {
    ClientAddress { ip, port }
}

fn receive(address: ClientAddress, channel: u8, payload: &[u8]) -> Event {
    Event::Receive {
        address,
        channel,
        payload: payload.to_vec(),
    }
}

#[test]
fn network_order_known_value() {
    assert_eq!(to_network_order(0x0A00_0001), 0x0100_000A);
    assert_eq!(from_network_order(0x0100_000A), 0x0A00_0001);
}

#[test]
fn network_order_round_trip() {
    for ip in [0u32, 1, 0xC0A8_0101, 0xFFFF_FFFF, 0x1234_5678] {
        assert_eq!(from_network_order(to_network_order(ip)), ip);
        assert_eq!(to_network_order(from_network_order(ip)), ip);
    }
}

#[test]
fn connect_registers_session() {
    let mut relay = Relay::new(config(0));
    let a = addr(1, 4000);
    let r = relay.step(Event::Connect { address: a, inbound_handle: 11 }, 0);
    assert_eq!(r.opened, Some(a));
    assert_eq!(r.closed, None);
    assert!(r.forwards.is_empty());
    assert!(relay.registry.contains(a));
    assert_eq!(relay.registry.len(), 1);
    assert_eq!(relay.registry.state_of(a), Some(SessionState::Connecting));
}

#[test]
fn connect_is_idempotent() {
    // two consecutive connects for one address yield one session, not two
    let mut relay = Relay::new(config(0));
    let a = addr(1, 4000);
    let r1 = relay.step(Event::Connect { address: a, inbound_handle: 11 }, 0);
    let r2 = relay.step(Event::Connect { address: a, inbound_handle: 12 }, 1);
    assert_eq!(r1.opened, Some(a));
    assert_eq!(r2.opened, None);
    assert_eq!(relay.registry.len(), 1);
}

#[test]
fn two_clients_get_two_sessions() {
    let mut relay = Relay::new(config(0));
    let a = addr(1, 4000);
    let b = addr(1, 4001);
    relay.step(Event::Connect { address: a, inbound_handle: 11 }, 0);
    relay.step(Event::Connect { address: b, inbound_handle: 12 }, 1);
    assert_eq!(relay.registry.len(), 2);
    assert!(relay.registry.contains(a));
    assert!(relay.registry.contains(b));
}

#[test]
fn zero_delay_forwards_in_same_step() {
    let mut relay = Relay::new(config(0));
    let a = addr(9, 5000);
    relay.step(Event::Connect { address: a, inbound_handle: 1 }, 100);
    let r = relay.step(receive(a, 2, &[1, 2, 3]), 150);
    assert_eq!(r.forwards.len(), 1);
    assert_eq!(r.forwards[0].address, a);
    assert_eq!(r.forwards[0].channel, 2);
    assert_eq!(r.forwards[0].payload, vec![1, 2, 3]);
    assert_eq!(r.forwards[0].destination, Destination::ToBackend);
    assert_eq!(relay.registry.pending_count(a), Some(0));
}

#[test]
fn receive_activates_session() {
    let mut relay = Relay::new(config(10));
    let a = addr(9, 5000);
    relay.step(Event::Connect { address: a, inbound_handle: 1 }, 0);
    relay.step(receive(a, 0, &[7]), 0);
    assert_eq!(relay.registry.state_of(a), Some(SessionState::Active));
}

#[test]
fn packet_released_at_exactly_arrival_plus_delay() {
    // received at T = 100 with delay D = 50: never forwarded before 150,
    // forwarded at the first tick with now >= 150
    let mut relay = Relay::new(config(50));
    let a = addr(3, 6000);
    relay.step(Event::Connect { address: a, inbound_handle: 1 }, 100);
    let r = relay.step(receive(a, 0, &[42]), 100);
    assert!(r.forwards.is_empty());
    assert_eq!(relay.registry.pending_count(a), Some(1));
    let r = relay.step(Event::Idle, 149);
    assert!(r.forwards.is_empty());
    assert_eq!(relay.registry.pending_count(a), Some(1));
    let r = relay.step(Event::Idle, 150);
    assert_eq!(r.forwards.len(), 1);
    assert_eq!(r.forwards[0].payload, vec![42]);
    assert_eq!(relay.registry.pending_count(a), Some(0));
}

#[test]
fn late_tick_still_releases() {
    // a coarse tick cadence may forward late, never early
    let mut relay = Relay::new(config(50));
    let a = addr(3, 6000);
    relay.step(Event::Connect { address: a, inbound_handle: 1 }, 0);
    relay.step(receive(a, 0, &[8]), 0);
    let r = relay.step(Event::Idle, 10_000);
    assert_eq!(r.forwards.len(), 1);
    assert_eq!(r.forwards[0].payload, vec![8]);
}

#[test]
fn burst_release_order_is_arrival_order() {
    // delay 50ms, packets at t = 0 and t = 10: released at/after 50 and 60,
    // first before second
    let mut relay = Relay::new(config(50));
    let a = addr(4, 7000);
    relay.step(Event::Connect { address: a, inbound_handle: 1 }, 0);
    relay.step(receive(a, 0, &[1]), 0);
    relay.step(receive(a, 0, &[2]), 10);
    let r = relay.step(Event::Idle, 49);
    assert!(r.forwards.is_empty());
    let r = relay.step(Event::Idle, 55);
    assert_eq!(r.forwards.len(), 1);
    assert_eq!(r.forwards[0].payload, vec![1]);
    let r = relay.step(Event::Idle, 59);
    assert!(r.forwards.is_empty());
    let r = relay.step(Event::Idle, 60);
    assert_eq!(r.forwards.len(), 1);
    assert_eq!(r.forwards[0].payload, vec![2]);
}

#[test]
fn burst_released_together_keeps_order() {
    let mut relay = Relay::new(config(50));
    let a = addr(4, 7000);
    relay.step(Event::Connect { address: a, inbound_handle: 1 }, 0);
    relay.step(receive(a, 0, &[1]), 0);
    relay.step(receive(a, 0, &[2]), 10);
    relay.step(receive(a, 0, &[3]), 20);
    let r = relay.step(Event::Idle, 500);
    let payloads: Vec<Vec<u8>> = r.forwards.iter().map(|f| f.payload.clone()).collect();
    assert_eq!(payloads, vec![vec![1], vec![2], vec![3]]);
}

#[test]
fn equal_release_times_stay_fifo() {
    // equal delay and equal arrival time: ties break by arrival order
    let mut relay = Relay::new(config(30));
    let a = addr(5, 8000);
    relay.step(Event::Connect { address: a, inbound_handle: 1 }, 0);
    relay.step(receive(a, 0, &[10]), 40);
    relay.step(receive(a, 0, &[20]), 40);
    relay.step(receive(a, 0, &[30]), 40);
    let r = relay.step(Event::Idle, 70);
    let payloads: Vec<Vec<u8>> = r.forwards.iter().map(|f| f.payload.clone()).collect();
    assert_eq!(payloads, vec![vec![10], vec![20], vec![30]]);
}

#[test]
fn disconnect_discards_pending_packets() {
    // delay 100ms, packet at t = 0, disconnect at t = 50: dropped, never
    // forwarded
    let mut relay = Relay::new(config(100));
    let a = addr(6, 9000);
    relay.step(Event::Connect { address: a, inbound_handle: 1 }, 0);
    relay.step(receive(a, 0, &[99]), 0);
    assert_eq!(relay.registry.pending_count(a), Some(1));
    let r = relay.step(Event::Disconnect { address: a }, 50);
    assert_eq!(r.closed, Some(a));
    assert!(r.forwards.is_empty());
    assert!(!relay.registry.contains(a));
    assert_eq!(relay.registry.len(), 0);
    let r = relay.step(Event::Idle, 1000);
    assert!(r.forwards.is_empty());
}

#[test]
fn disconnect_leaves_other_sessions_alone() {
    let mut relay = Relay::new(config(100));
    let a = addr(6, 9000);
    let b = addr(6, 9001);
    relay.step(Event::Connect { address: a, inbound_handle: 1 }, 0);
    relay.step(Event::Connect { address: b, inbound_handle: 2 }, 0);
    relay.step(receive(a, 0, &[1]), 0);
    relay.step(receive(b, 0, &[2]), 0);
    let r = relay.step(Event::Disconnect { address: a }, 10);
    assert!(r.forwards.is_empty());
    assert!(!relay.registry.contains(a));
    assert!(relay.registry.contains(b));
    let r = relay.step(Event::Idle, 100);
    assert_eq!(r.forwards.len(), 1);
    assert_eq!(r.forwards[0].address, b);
    assert_eq!(r.forwards[0].payload, vec![2]);
}

#[test]
fn reconnect_starts_a_fresh_session() {
    // a reconnect after a disconnect opens again, with nothing inherited
    let mut relay = Relay::new(config(100));
    let a = addr(6, 9000);
    relay.step(Event::Connect { address: a, inbound_handle: 1 }, 0);
    relay.step(receive(a, 0, &[1]), 0);
    relay.step(Event::Disconnect { address: a }, 10);
    let r = relay.step(Event::Connect { address: a, inbound_handle: 2 }, 20);
    assert_eq!(r.opened, Some(a));
    assert_eq!(relay.registry.len(), 1);
    assert_eq!(relay.registry.state_of(a), Some(SessionState::Connecting));
    assert_eq!(relay.registry.pending_count(a), Some(0));
    let r = relay.step(Event::Idle, 1000);
    assert!(r.forwards.is_empty());
}

#[test]
fn receive_for_unknown_address_is_discarded() {
    let mut relay = Relay::new(config(0));
    let a = addr(7, 1000);
    let r = relay.step(receive(a, 0, &[5]), 0);
    assert!(r.forwards.is_empty());
    assert_eq!(relay.registry.len(), 0);
    assert!(!relay.registry.contains(a));
}

#[test]
fn disconnect_for_unknown_address_is_ignored() {
    let mut relay = Relay::new(config(0));
    let a = addr(7, 1000);
    let r = relay.step(Event::Disconnect { address: a }, 0);
    assert_eq!(r.closed, None);
    assert!(r.forwards.is_empty());
}

#[test]
fn backend_response_is_relayed_to_client() {
    // a backend response goes through the same delay queue, to the client
    let mut relay = Relay::new(config(20));
    let a = addr(8, 2000);
    relay.step(Event::Connect { address: a, inbound_handle: 1 }, 0);
    let r = relay.step(
        Event::BackendReceive {
            address: a,
            channel: 1,
            payload: vec![7, 7],
        },
        0,
    );
    assert!(r.forwards.is_empty());
    // a backend response does not count as client traffic for the lifecycle
    assert_eq!(relay.registry.state_of(a), Some(SessionState::Connecting));
    let r = relay.step(Event::Idle, 20);
    assert_eq!(r.forwards.len(), 1);
    assert_eq!(r.forwards[0].destination, Destination::ToClient);
    assert_eq!(r.forwards[0].payload, vec![7, 7]);
    assert_eq!(r.forwards[0].address, a);
}

#[test]
fn session_state_machine() {
    let mut s = Session::new(addr(1, 1), 5);
    assert_eq!(s.state, SessionState::Connecting);
    assert_eq!(s.address, addr(1, 1));
    assert_eq!(s.inbound_handle, 5);
    s.on_receive(0, vec![1], 0, 10);
    assert_eq!(s.state, SessionState::Active);
    let due = s.tick(5);
    assert!(due.is_empty());
    let due = s.tick(10);
    assert_eq!(due.len(), 1);
    assert_eq!(due[0].payload, vec![1]);
    assert_eq!(due[0].release_at, 10);
    s.disconnect();
    assert_eq!(s.state, SessionState::Closed);
    assert!(s.pending.is_empty());
}

#[test]
fn session_discards_pending_on_disconnect() {
    let mut s = Session::new(addr(1, 1), 5);
    s.on_receive(0, vec![1], 0, 100);
    s.on_receive(0, vec![2], 1, 100);
    assert_eq!(s.pending.len(), 2);
    s.disconnect();
    assert!(s.pending.is_empty());
    assert_eq!(s.pending.len(), 0);
}

#[test]
fn queue_orders_by_release_time() {
    let mut q = DelayQueue::new();
    assert!(q.is_empty());
    q.enqueue(DelayedPacket {
        payload: vec![2],
        channel: 0,
        release_at: 20,
        destination: Destination::ToBackend,
    });
    q.enqueue(DelayedPacket {
        payload: vec![1],
        channel: 0,
        release_at: 10,
        destination: Destination::ToBackend,
    });
    q.enqueue(DelayedPacket {
        payload: vec![3],
        channel: 0,
        release_at: 30,
        destination: Destination::ToBackend,
    });
    assert_eq!(q.len(), 3);
    let due = q.pop_due(25);
    let payloads: Vec<Vec<u8>> = due.iter().map(|p| p.payload.clone()).collect();
    assert_eq!(payloads, vec![vec![1], vec![2]]);
    assert_eq!(q.len(), 1);
    let due = q.pop_due(25);
    assert!(due.is_empty());
    let due = q.pop_due(30);
    assert_eq!(due.len(), 1);
    assert_eq!(due[0].payload, vec![3]);
    assert!(q.is_empty());
}

#[test]
fn queue_ties_keep_arrival_order() {
    let mut q = DelayQueue::new();
    for b in [1u8, 2, 3] {
        q.enqueue(DelayedPacket {
            payload: vec![b],
            channel: 0,
            release_at: 10,
            destination: Destination::ToClient,
        });
    }
    let due = q.pop_due(10);
    let payloads: Vec<Vec<u8>> = due.iter().map(|p| p.payload.clone()).collect();
    assert_eq!(payloads, vec![vec![1], vec![2], vec![3]]);
}

#[test]
fn empty_payload_is_relayed() {
    let mut relay = Relay::new(config(0));
    let a = addr(2, 3000);
    relay.step(Event::Connect { address: a, inbound_handle: 1 }, 0);
    let r = relay.step(receive(a, 0, &[]), 0);
    assert_eq!(r.forwards.len(), 1);
    assert!(r.forwards[0].payload.is_empty());
}
