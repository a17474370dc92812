use broadcast_relay::addr::{ipv4, Addr};
use broadcast_relay::relay::{Effect, Event, Relay};
use broadcast_relay::window::BAN_WINDOW_MS;

const MINUTE: u64 = 60_000;

fn peer(last: u8, port: u16) -> Addr {
    Addr::new(ipv4(10, 0, 0, last), port)
}

fn recipients(e: &Effect) -> Vec<Addr> {
    match e {
        Effect::Broadcast { recipients, .. } => recipients.clone(),
        other => panic!("expected a broadcast, got {:?}", other),
    }
}

#[test]
fn three_clients_broadcast() {
    let (a, b, c) = (peer(1, 5000), peer(2, 5001), peer(3, 5002));
    let mut relay = Relay::new(BAN_WINDOW_MS);
    assert_eq!(relay.on_connected(a, 1), Effect::Admitted);
    assert_eq!(relay.on_connected(b, 2), Effect::Admitted);
    assert_eq!(relay.on_connected(c, 3), Effect::Admitted);
    assert_eq!(relay.len(), 3);

    let e = relay.on_data(&a, b"hello".to_vec());
    assert_eq!(
        e,
        Effect::Broadcast { recipients: vec![b, c], bytes: b"hello".to_vec() }
    );
    assert!(!recipients(&e).contains(&a));

    assert_eq!(relay.on_disconnected(&b), Effect::Released);
    assert_eq!(relay.len(), 2);
    assert_eq!(relay.addrs(), vec![a, c]);

    let e = relay.on_data(&c, b"x".to_vec());
    assert_eq!(e, Effect::Broadcast { recipients: vec![a], bytes: b"x".to_vec() });
}

#[test]
fn ban_reconnect_window() {
    let ip = ipv4(1, 2, 3, 4);
    let t: u64 = 1_700_000_000_000;
    let mut relay = Relay::new(BAN_WINDOW_MS);
    let evicted = relay.ban(ip, t);
    assert!(evicted.is_empty());
    assert_eq!(relay.ban_start(ip), Some(t));

    let who = Addr::new(ip, 40000);
    let e = relay.on_connected(who, t + 5 * MINUTE);
    assert_eq!(e, Effect::Rejected { ms_left: 300_000 });
    assert!(!relay.contains(&who));
    assert_eq!(relay.len(), 0);
    assert_eq!(relay.ban_start(ip), Some(t));

    let e = relay.on_connected(who, t + 11 * MINUTE);
    assert_eq!(e, Effect::Admitted);
    assert!(relay.contains(&who));
    assert_eq!(relay.ban_start(ip), None);
}

#[test]
fn ban_ends_exactly_at_window() {
    let ip = ipv4(1, 2, 3, 4);
    let mut relay = Relay::new(BAN_WINDOW_MS);
    relay.ban(ip, 1000);
    let who = Addr::new(ip, 1);
    assert_eq!(
        relay.on_connected(who, 1000 + BAN_WINDOW_MS - 1),
        Effect::Rejected { ms_left: 1 }
    );
    assert_eq!(relay.on_connected(who, 1000 + BAN_WINDOW_MS), Effect::Admitted);
    assert_eq!(relay.ban_start(ip), None);
}

#[test]
fn clock_backwards_keeps_ban() {
    let ip = ipv4(9, 9, 9, 9);
    let mut relay = Relay::new(BAN_WINDOW_MS);
    relay.ban(ip, 50_000);
    let e = relay.on_connected(Addr::new(ip, 7), 10_000);
    assert_eq!(e, Effect::Rejected { ms_left: BAN_WINDOW_MS });
    assert_eq!(relay.len(), 0);
}

#[test]
fn ban_evicts_registered_clients_of_that_ip() {
    let ip = ipv4(1, 2, 3, 4);
    let (x, y, z) = (Addr::new(ip, 1), peer(5, 2), Addr::new(ip, 3));
    let mut relay = Relay::new(BAN_WINDOW_MS);
    relay.on_connected(x, 0);
    relay.on_connected(y, 0);
    relay.on_connected(z, 0);
    assert_eq!(relay.ban(ip, 10), vec![x, z]);
    assert_eq!(relay.addrs(), vec![y]);
    assert_eq!(relay.ban_start(ip), Some(10));
}

#[test]
fn ban_again_restarts_window() {
    let ip = ipv4(1, 2, 3, 4);
    let mut relay = Relay::new(BAN_WINDOW_MS);
    relay.ban(ip, 0);
    relay.ban(ip, 5 * MINUTE);
    assert_eq!(relay.ban_start(ip), Some(5 * MINUTE));
    assert_eq!(
        relay.on_connected(Addr::new(ip, 1), 11 * MINUTE),
        Effect::Rejected { ms_left: 4 * MINUTE }
    );
}

#[test]
fn unrelated_ip_unaffected_by_ban() {
    let mut relay = Relay::new(BAN_WINDOW_MS);
    relay.ban(ipv4(1, 2, 3, 4), 0);
    assert_eq!(relay.on_connected(Addr::new(ipv4(1, 2, 3, 5), 1), 1), Effect::Admitted);
    assert_eq!(relay.len(), 1);
}

#[test]
fn registry_count_after_connects_and_disconnects() {
    let mut relay = Relay::new(BAN_WINDOW_MS);
    for i in 0..5u8 {
        assert_eq!(relay.on_connected(peer(i, 100 + i as u16), i as u64), Effect::Admitted);
    }
    relay.on_disconnected(&peer(1, 101));
    relay.on_disconnected(&peer(3, 103));
    relay.on_disconnected(&peer(42, 9));
    assert_eq!(relay.len(), 3);
    assert_eq!(relay.addrs(), vec![peer(0, 100), peer(2, 102), peer(4, 104)]);
}

#[test]
fn broadcast_reaches_every_other_client() {
    let mut relay = Relay::new(BAN_WINDOW_MS);
    for i in 0..4u8 {
        relay.on_connected(peer(i, 1), 0);
    }
    let sender = peer(2, 1);
    let e = relay.on_data(&sender, vec![1, 2, 3]);
    let to = recipients(&e);
    assert_eq!(to.len(), 3);
    assert!(!to.contains(&sender));
    match e {
        Effect::Broadcast { bytes, .. } => assert_eq!(bytes, vec![1, 2, 3]),
        _ => unreachable!(),
    }
}

#[test]
fn broadcast_from_unregistered_sender_reaches_all() {
    let mut relay = Relay::new(BAN_WINDOW_MS);
    relay.on_connected(peer(1, 1), 0);
    relay.on_connected(peer(2, 1), 0);
    let e = relay.on_data(&peer(7, 7), vec![9]);
    assert_eq!(recipients(&e), vec![peer(1, 1), peer(2, 1)]);
}

#[test]
fn broadcast_with_no_others_is_empty() {
    let mut relay = Relay::new(BAN_WINDOW_MS);
    let a = peer(1, 1);
    relay.on_connected(a, 0);
    assert_eq!(
        relay.on_data(&a, vec![5]),
        Effect::Broadcast { recipients: vec![], bytes: vec![5] }
    );
}

#[test]
fn disconnect_of_absent_address_is_noop() {
    let mut relay = Relay::new(BAN_WINDOW_MS);
    relay.on_connected(peer(1, 1), 0);
    assert_eq!(relay.on_disconnected(&peer(2, 2)), Effect::Released);
    assert_eq!(relay.addrs(), vec![peer(1, 1)]);
    assert_eq!(relay.on_disconnected(&peer(1, 1)), Effect::Released);
    assert_eq!(relay.on_disconnected(&peer(1, 1)), Effect::Released);
    assert_eq!(relay.len(), 0);
}

#[test]
fn reconnect_of_same_address_keeps_one_entry() {
    let mut relay = Relay::new(BAN_WINDOW_MS);
    let a = peer(1, 1);
    relay.on_connected(a, 0);
    relay.on_connected(peer(2, 2), 0);
    relay.on_connected(a, 5);
    assert_eq!(relay.addrs(), vec![a, peer(2, 2)]);
}

#[test]
fn handle_dispatches_events() {
    let mut relay = Relay::new(BAN_WINDOW_MS);
    let (a, b) = (peer(1, 1), peer(2, 2));
    assert_eq!(relay.handle(Event::Connected(a), 0), Effect::Admitted);
    assert_eq!(relay.handle(Event::Connected(b), 0), Effect::Admitted);
    assert_eq!(
        relay.handle(Event::DataReceived(b, vec![7, 8]), 1),
        Effect::Broadcast { recipients: vec![a], bytes: vec![7, 8] }
    );
    assert_eq!(relay.handle(Event::Disconnected(a), 2), Effect::Released);
    assert_eq!(relay.addrs(), vec![b]);
    assert_eq!(relay.ban_window(), BAN_WINDOW_MS);
}
