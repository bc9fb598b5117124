use kimchi::message::KimchiMessage;
use kimchi::registry::Registry;
use kimchi::relay::{handle_inbound, next_outbound_frame, Connection};

#[test]
fn public_message_reaches_only_the_other_peer() {
    // peers A (1) and B (2) connect; A sends a public line
    let mut reg = Registry::new();
    reg.register(1);
    reg.register(2);
    let m = KimchiMessage::Public { user: String::from("A"), message: String::from("hi") };
    let frame = KimchiMessage::to_str(&m).unwrap();
    let delivered = handle_inbound(&mut reg, 1, &frame);
    assert_eq!(delivered, Some(m.clone()));
    // B's queue holds exactly that one message; A's holds none
    assert_eq!(reg.pop_outbound(2), Some(m));
    assert_eq!(reg.pop_outbound(2), None);
    assert_eq!(reg.pop_outbound(1), None);
}

#[test]
fn disconnected_peer_receives_nothing() {
    // peers A (1), B (2), C (3); B disconnects; A sends
    let mut reg = Registry::new();
    reg.register(1);
    reg.register(2);
    reg.register(3);
    reg.deregister(2);
    let m = KimchiMessage::Public { user: String::from("A"), message: String::from("news") };
    let frame = KimchiMessage::to_str(&m).unwrap();
    handle_inbound(&mut reg, 1, &frame);
    assert_eq!(reg.pop_outbound(3), Some(m));
    assert_eq!(reg.pop_outbound(2), None);
    assert_eq!(reg.snapshot_others(1), vec![3]);
}

#[test]
fn undecodable_frame_is_dropped_not_forwarded() {
    let mut reg = Registry::new();
    reg.register(1);
    reg.register(2);
    let r = handle_inbound(&mut reg, 1, "{\"type\":\"Public\",\"user\"");
    assert_eq!(r, None);
    assert_eq!(reg.pop_outbound(2), None);
    // the sending connection stays usable: a good frame still goes through
    let m = KimchiMessage::Joined { user: String::from("A") };
    let frame = KimchiMessage::to_str(&m).unwrap();
    assert!(handle_inbound(&mut reg, 1, &frame).is_some());
    assert_eq!(reg.pop_outbound(2), Some(m));
}

#[test]
fn concurrent_senders_both_observed_in_order() {
    // peers 1 and 2 each send one message; the third peer sees both,
    // in delivery order, nothing duplicated or dropped
    let mut reg = Registry::new();
    reg.register(1);
    reg.register(2);
    reg.register(3);
    let m1 = KimchiMessage::Public { user: String::from("A"), message: String::from("from A") };
    let m2 = KimchiMessage::Public { user: String::from("B"), message: String::from("from B") };
    let f1 = KimchiMessage::to_str(&m1).unwrap();
    let f2 = KimchiMessage::to_str(&m2).unwrap();
    handle_inbound(&mut reg, 1, &f1);
    handle_inbound(&mut reg, 2, &f2);
    assert_eq!(reg.pop_outbound(3), Some(m1.clone()));
    assert_eq!(reg.pop_outbound(3), Some(m2.clone()));
    assert_eq!(reg.pop_outbound(3), None);
    // each sender sees only the other's message
    assert_eq!(reg.pop_outbound(1), Some(m2));
    assert_eq!(reg.pop_outbound(1), None);
    assert_eq!(reg.pop_outbound(2), Some(m1));
    assert_eq!(reg.pop_outbound(2), None);
}

#[test]
fn outbound_loop_encodes_pending_messages() {
    let mut reg = Registry::new();
    reg.register(1);
    reg.register(2);
    let m = KimchiMessage::Joined { user: String::from("A") };
    reg.broadcast(1, &m);
    let frame = next_outbound_frame(&mut reg, 2).unwrap();
    assert_eq!(KimchiMessage::from_str(&frame), Some(m));
    assert_eq!(next_outbound_frame(&mut reg, 2), None);
}

#[test]
fn connection_lifecycle() {
    let mut reg = Registry::new();
    let mut c = Connection::accept(1);
    assert!(c.open(&mut reg));
    assert!(reg.contains_peer(1));
    // a second connection under the same identity is rejected
    let mut dup = Connection::accept(1);
    assert!(!dup.open(&mut reg));
    assert!(reg.contains_peer(1));
    c.begin_close(&mut reg);
    assert!(!reg.contains_peer(1));
    c.finish_close();
    // closing again does no harm
    let mut c2 = Connection::accept(1);
    assert!(c2.open(&mut reg));
    c2.begin_close(&mut reg);
    c2.begin_close(&mut reg);
    assert!(!reg.contains_peer(1));
}

#[test]
fn no_broadcast_after_deregistration() {
    let mut reg = Registry::new();
    let mut a = Connection::accept(1);
    let mut b = Connection::accept(2);
    assert!(a.open(&mut reg));
    assert!(b.open(&mut reg));
    b.begin_close(&mut reg);
    let m = KimchiMessage::Public { user: String::from("A"), message: String::from("late") };
    let frame = KimchiMessage::to_str(&m).unwrap();
    a.on_frame(&mut reg, &frame);
    // B deregistered before the broadcast, so nothing waits for it
    assert_eq!(reg.pop_outbound(2), None);
}
