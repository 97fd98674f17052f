use broadcast_relay::registry::Registry;
use broadcast_relay::registry::RegistryEvent;

#[test]
fn broadcast_fans_out_to_every_registered_client() {
    let mut reg = Registry::new();
    reg.apply(RegistryEvent::Joined(1, 5));
    reg.apply(RegistryEvent::Joined(2, 5));
    reg.apply(RegistryEvent::Joined(3, 5));
    assert_eq!(reg.client_count(), 3);
    reg.apply(RegistryEvent::Broadcast(vec![0x01, 0x02]));
    // Every registered record gets the enqueue attempt — the sender's own
    // record included: the registry does not exclude anyone.
    assert_eq!(reg.pending_len(1), 1);
    assert_eq!(reg.pending_len(2), 1);
    assert_eq!(reg.pending_len(3), 1);
    assert_eq!(reg.pop_outbound(2), Some(vec![0x01, 0x02]));
    assert_eq!(reg.pop_outbound(3), Some(vec![0x01, 0x02]));
}

#[test]
fn left_for_unknown_address_is_a_no_op() {
    let mut reg = Registry::new();
    reg.apply(RegistryEvent::Joined(1, 5));
    reg.apply(RegistryEvent::Left(99));
    assert!(reg.is_registered(1));
    assert_eq!(reg.client_count(), 1);
}

#[test]
fn left_twice_equals_left_once() {
    let mut reg = Registry::new();
    reg.apply(RegistryEvent::Joined(1, 5));
    reg.apply(RegistryEvent::Joined(2, 5));
    reg.apply(RegistryEvent::Left(1));
    assert!(!reg.is_registered(1));
    assert_eq!(reg.client_count(), 1);
    reg.apply(RegistryEvent::Left(1));
    assert!(!reg.is_registered(1));
    assert!(reg.is_registered(2));
    assert_eq!(reg.client_count(), 1);
}

#[test]
fn full_queue_drops_payload_for_that_client_only() {
    let mut reg = Registry::new();
    reg.apply(RegistryEvent::Joined(1, 1));  // slow consumer: capacity 1
    reg.apply(RegistryEvent::Joined(2, 5));
    reg.apply(RegistryEvent::Broadcast(vec![0xaa]));
    reg.apply(RegistryEvent::Broadcast(vec![0xbb]));
    // The slow client's queue saturated after the first payload; the second
    // was dropped for it alone, and the other client still got both.
    assert_eq!(reg.pending_len(1), 1);
    assert_eq!(reg.pending_len(2), 2);
    assert_eq!(reg.pop_outbound(1), Some(vec![0xaa]));
    assert_eq!(reg.pop_outbound(1), None);
    assert_eq!(reg.pop_outbound(2), Some(vec![0xaa]));
    assert_eq!(reg.pop_outbound(2), Some(vec![0xbb]));
}

#[test]
fn payloads_come_out_in_broadcast_order() {
    let mut reg = Registry::new();
    reg.apply(RegistryEvent::Joined(7, 5));
    reg.apply(RegistryEvent::Broadcast(vec![1u8]));
    reg.apply(RegistryEvent::Broadcast(vec![2u8]));
    reg.apply(RegistryEvent::Broadcast(vec![3u8]));
    assert_eq!(reg.pop_outbound(7), Some(vec![1u8]));
    assert_eq!(reg.pop_outbound(7), Some(vec![2u8]));
    assert_eq!(reg.pop_outbound(7), Some(vec![3u8]));
    assert_eq!(reg.pop_outbound(7), None);
}

#[test]
fn rejoin_replaces_the_record_with_a_fresh_queue() {
    let mut reg = Registry::new();
    reg.apply(RegistryEvent::Joined(1, 5));
    reg.apply(RegistryEvent::Broadcast(vec![9u8]));
    assert_eq!(reg.pending_len(1), 1);
    // Re-registering an address silently replaces the old record.
    reg.apply(RegistryEvent::Joined(1, 5));
    assert_eq!(reg.client_count(), 1);
    assert_eq!(reg.pending_len(1), 0);
}

#[test]
fn pop_from_unknown_or_empty_queue_returns_nothing() {
    let mut reg = Registry::new();
    assert_eq!(reg.pop_outbound(1), None);
    reg.apply(RegistryEvent::Joined(1, 5));
    assert_eq!(reg.pop_outbound(1), None);
    assert!(reg.is_registered(1));
}

#[test]
fn empty_payload_broadcast_is_delivered() {
    let mut reg = Registry::new();
    reg.apply(RegistryEvent::Joined(1, 5));
    reg.apply(RegistryEvent::Broadcast(Vec::new()));
    assert_eq!(reg.pending_len(1), 1);
    assert_eq!(reg.pop_outbound(1), Some(Vec::new()));
}
