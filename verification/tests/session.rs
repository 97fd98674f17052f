use broadcast_relay::codec::encode_frame;
use broadcast_relay::registry::Registry;
use broadcast_relay::registry::RegistryEvent;
use broadcast_relay::session::ReaderSession;

#[test]
fn session_emits_joined_before_anything_else() {
    let (s, ev) = ReaderSession::start(7, 5);
    assert_eq!(ev, RegistryEvent::Joined(7, 5));
    assert!(!s.is_finished());
}

#[test]
fn each_complete_frame_becomes_one_broadcast() {
    let (mut s, _joined) = ReaderSession::start(7, 5);
    let mut bytes = encode_frame(&vec![1u8, 2]);
    bytes.extend_from_slice(&encode_frame(&vec![3u8]));
    let evs = s.on_bytes(&bytes);
    assert_eq!(
        evs,
        vec![
            RegistryEvent::Broadcast(vec![1u8, 2]),
            RegistryEvent::Broadcast(vec![3u8]),
        ]
    );
}

#[test]
fn bytes_split_across_reads_still_make_one_frame() {
    let (mut s, _joined) = ReaderSession::start(7, 5);
    let evs = s.on_bytes(&vec![2u8, 0x01]);
    assert!(evs.is_empty());
    let evs = s.on_bytes(&vec![0x02u8]);
    assert_eq!(evs, vec![RegistryEvent::Broadcast(vec![0x01, 0x02])]);
}

#[test]
fn close_emits_exactly_the_left_event() {
    let (mut s, _joined) = ReaderSession::start(42, 5);
    let ev = s.close();
    assert_eq!(ev, RegistryEvent::Left(42));
    assert!(s.is_finished());
}

#[test]
fn connect_then_immediate_close_leaves_no_record() {
    // Client D connects and closes its transport without sending data: the
    // registry sees exactly one Joined and then exactly one Left.
    let mut reg = Registry::new();
    let (mut d, joined) = ReaderSession::start(4, 5);
    reg.apply(joined);
    assert!(reg.is_registered(4));
    let left = d.close();
    assert_eq!(left, RegistryEvent::Left(4));
    reg.apply(left);
    assert!(!reg.is_registered(4));
    assert_eq!(reg.client_count(), 0);
}

#[test]
fn truncated_frame_forwards_nothing_and_still_disconnects() {
    // A frame declares 200 bytes but the connection closes after 50: the
    // reader forwards no partial Broadcast, exits, and its Left follows.
    let mut reg = Registry::new();
    let (mut other, other_joined) = ReaderSession::start(2, 5);
    let (mut s, joined) = ReaderSession::start(1, 5);
    reg.apply(other_joined);
    reg.apply(joined);
    let mut bytes = vec![200u8];
    bytes.extend_from_slice(&[0u8; 50]);
    let evs = s.on_bytes(&bytes);
    assert!(evs.is_empty());
    let left = s.close();
    reg.apply(left);
    assert!(!reg.is_registered(1));
    assert_eq!(reg.pending_len(2), 0);
    let _ = other.close();
}

#[test]
fn own_first_frame_is_not_lost_to_registration() {
    // The session hands out Joined before it will produce any Broadcast, so
    // a registry consuming the events in order is registered in time for
    // the client's own first frame.
    let mut reg = Registry::new();
    let (mut s, joined) = ReaderSession::start(9, 5);
    reg.apply(joined);
    let evs = s.on_bytes(&encode_frame(&vec![0x77u8]));
    for ev in evs {
        reg.apply(ev);
    }
    assert_eq!(reg.pending_len(9), 1);
    assert_eq!(reg.pop_outbound(9), Some(vec![0x77u8]));
}

#[test]
fn three_clients_one_broadcast_scenario() {
    // Clients A, B, C connect in order; A sends payload [0x01, 0x02]. B and
    // C each receive it and their writers would put frame 0x02 0x01 0x02 on
    // the wire. A's own record also holds the echo: the registry broadcasts
    // to every registered record without excluding the sender.
    let mut reg = Registry::new();
    let (mut a, a_joined) = ReaderSession::start(1, 5);
    let (b, b_joined) = ReaderSession::start(2, 5);
    let (c, c_joined) = ReaderSession::start(3, 5);
    reg.apply(a_joined);
    reg.apply(b_joined);
    reg.apply(c_joined);

    let evs = a.on_bytes(&vec![0x02, 0x01, 0x02]);
    assert_eq!(evs.len(), 1);
    for ev in evs {
        reg.apply(ev);
    }

    let to_b = reg.pop_outbound(2).unwrap();
    assert_eq!(to_b, vec![0x01, 0x02]);
    assert_eq!(encode_frame(&to_b), vec![0x02, 0x01, 0x02]);
    let to_c = reg.pop_outbound(3).unwrap();
    assert_eq!(encode_frame(&to_c), vec![0x02, 0x01, 0x02]);
    assert_eq!(reg.pending_len(1), 1);

    assert!(!a.is_finished());
    assert!(!b.is_finished());
    assert!(!c.is_finished());
}
