use discord_relay::registry::PeerRegistry;

#[test]
fn insert_is_idempotent() {
    let mut reg = PeerRegistry::new();
    assert!(reg.insert(3));
    assert!(!reg.insert(3));
    assert!(reg.contains(3));
    assert_eq!(reg.len(), 1);
}

#[test]
fn remove_is_idempotent() {
    let mut reg = PeerRegistry::new();
    reg.insert(1);
    reg.insert(2);
    reg.remove(1);
    reg.remove(1);
    reg.remove(99);
    assert!(!reg.contains(1));
    assert!(reg.contains(2));
    assert_eq!(reg.len(), 1);
}

#[test]
fn snapshot_holds_each_peer_once() {
    let mut reg = PeerRegistry::new();
    reg.insert(7);
    reg.insert(u32::MAX);
    reg.insert(0);
    reg.insert(7);
    let mut snap = reg.snapshot();
    snap.sort();
    assert_eq!(snap, vec![0, 7, u32::MAX]);
}
