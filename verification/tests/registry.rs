use kimchi::message::KimchiMessage;
use kimchi::registry::Registry;

#[test]
fn register_then_contains() {
    let mut reg = Registry::new();
    assert!(!reg.contains_peer(1));
    reg.register(1);
    assert!(reg.contains_peer(1));
    reg.register(2);
    assert!(reg.contains_peer(1));
    assert!(reg.contains_peer(2));
}

#[test]
fn deregister_is_idempotent() {
    let mut reg = Registry::new();
    reg.register(1);
    reg.deregister(1);
    assert!(!reg.contains_peer(1));
    reg.deregister(1);
    assert!(!reg.contains_peer(1));
    // deregistering an identity that never registered is a no-op too
    reg.deregister(99);
    assert!(!reg.contains_peer(99));
}

#[test]
fn snapshot_excludes_origin() {
    let mut reg = Registry::new();
    reg.register(1);
    reg.register(2);
    reg.register(3);
    let others = reg.snapshot_others(2);
    assert_eq!(others, vec![1, 3]);
}

#[test]
fn snapshot_after_deregister() {
    let mut reg = Registry::new();
    reg.register(1);
    reg.register(2);
    reg.register(3);
    reg.deregister(2);
    let others = reg.snapshot_others(1);
    assert_eq!(others, vec![3]);
}

#[test]
fn broadcast_reaches_all_but_origin() {
    let mut reg = Registry::new();
    reg.register(1);
    reg.register(2);
    reg.register(3);
    let m = KimchiMessage::Joined { user: String::from("A") };
    reg.broadcast(1, &m);
    assert_eq!(reg.pop_outbound(2), Some(m.clone()));
    assert_eq!(reg.pop_outbound(3), Some(m.clone()));
    assert_eq!(reg.pop_outbound(1), None);
    assert_eq!(reg.pop_outbound(2), None);
    assert_eq!(reg.pop_outbound(3), None);
}

#[test]
fn queues_are_fifo_per_peer() {
    let mut reg = Registry::new();
    reg.register(1);
    reg.register(2);
    let a = KimchiMessage::Public { user: String::from("A"), message: String::from("one") };
    let b = KimchiMessage::Public { user: String::from("A"), message: String::from("two") };
    reg.broadcast(1, &a);
    reg.broadcast(1, &b);
    assert_eq!(reg.pop_outbound(2), Some(a));
    assert_eq!(reg.pop_outbound(2), Some(b));
    assert_eq!(reg.pop_outbound(2), None);
}

#[test]
fn pop_on_unknown_peer_is_none() {
    let mut reg = Registry::new();
    assert_eq!(reg.pop_outbound(7), None);
}
