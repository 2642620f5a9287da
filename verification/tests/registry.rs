use raftify::error::Error;
use raftify::peer::Peer;
use raftify::registry::{ConnectionStep, PeerRegistry};

#[test]
fn later_address_is_dialled() {
    let mut registry: PeerRegistry<u32> = PeerRegistry::new();
    assert_eq!(registry.register(5, "h:9000"), Ok(()));
    assert_eq!(registry.register(5, "h:9001"), Ok(()));
    assert_eq!(registry.connection_for(5), Ok(ConnectionStep::Dial("h:9001".to_string())));
}

#[test]
fn register_holds_each_id_once() {
    let mut registry: PeerRegistry<u32> = PeerRegistry::new();
    assert_eq!(registry.register(5, "h:9000"), Ok(()));
    assert_eq!(registry.register(5, "h:9001"), Ok(()));
    assert_eq!(registry.register(5, "h:9001"), Ok(()));
    assert_eq!(registry.len(), 1);
    assert_eq!(registry.address_of(5), Some("h:9001".to_string()));
}

#[test]
fn new_address_drops_the_stored_connection() {
    let mut registry: PeerRegistry<u32> = PeerRegistry::new();
    registry.register(5, "h:9000").unwrap();
    assert_eq!(registry.connected(5, "h:9000", Some(77)), Ok(()));
    assert_eq!(registry.connection_for(5), Ok(ConnectionStep::Ready(&77)));
    registry.register(5, "h:9001").unwrap();
    assert_eq!(registry.connection_for(5), Ok(ConnectionStep::Dial("h:9001".to_string())));
}

#[test]
fn connection_for_is_idempotent_while_address_is_unchanged() {
    let mut registry: PeerRegistry<u32> = PeerRegistry::new();
    registry.register(5, "h:9000").unwrap();
    assert_eq!(registry.connection_for(5), Ok(ConnectionStep::Dial("h:9000".to_string())));
    registry.connected(5, "h:9000", Some(1)).unwrap();
    assert_eq!(registry.connection_for(5), Ok(ConnectionStep::Ready(&1)));
    assert_eq!(registry.connection_for(5), Ok(ConnectionStep::Ready(&1)));
    registry.register(5, "h:9000").unwrap();
    assert_eq!(registry.connection_for(5), Ok(ConnectionStep::Ready(&1)));
}

#[test]
fn register_rejects_a_malformed_address() {
    let mut registry: PeerRegistry<u32> = PeerRegistry::new();
    registry.register(1, "10.0.0.1:7000").unwrap();
    assert_eq!(registry.register(2, "nonsense"), Err(Error::InvalidAddress));
    assert_eq!(registry.register(1, "10.0.0.1"), Err(Error::InvalidAddress));
    assert_eq!(registry.len(), 1);
    assert!(!registry.contains(2));
    assert_eq!(registry.address_of(1), Some("10.0.0.1:7000".to_string()));
}

#[test]
fn connection_for_an_unknown_peer_fails() {
    let registry: PeerRegistry<u32> = PeerRegistry::new();
    assert_eq!(registry.connection_for(9), Err(Error::PeerUnreachable));
}

#[test]
fn failed_attempt_is_reported_and_not_stored() {
    let mut registry: PeerRegistry<u32> = PeerRegistry::new();
    registry.register(5, "h:9000").unwrap();
    assert_eq!(registry.connected(5, "h:9000", None), Err(Error::PeerUnreachable));
    assert_eq!(registry.connection_for(5), Ok(ConnectionStep::Dial("h:9000".to_string())));
}

#[test]
fn attempt_to_a_former_address_is_not_stored() {
    let mut registry: PeerRegistry<u32> = PeerRegistry::new();
    registry.register(5, "h:9000").unwrap();
    registry.register(5, "h:9001").unwrap();
    assert_eq!(registry.connected(5, "h:9000", Some(3)), Err(Error::PeerUnreachable));
    assert_eq!(registry.connection_for(5), Ok(ConnectionStep::Dial("h:9001".to_string())));
    assert_eq!(registry.connected(6, "h:9000", Some(3)), Err(Error::PeerUnreachable));
    assert!(!registry.contains(6));
}

#[test]
fn remove_drops_entry_and_connection() {
    let mut registry: PeerRegistry<u32> = PeerRegistry::new();
    registry.register(5, "h:9000").unwrap();
    registry.connected(5, "h:9000", Some(3)).unwrap();
    assert!(registry.remove(5));
    assert!(!registry.remove(5));
    assert_eq!(registry.len(), 0);
    assert_eq!(registry.connection_for(5), Err(Error::PeerUnreachable));
    registry.register(5, "h:9000").unwrap();
    assert_eq!(registry.connection_for(5), Ok(ConnectionStep::Dial("h:9000".to_string())));
}

#[test]
fn invalidate_asks_for_a_new_connection() {
    let mut registry: PeerRegistry<u32> = PeerRegistry::new();
    registry.register(5, "h:9000").unwrap();
    registry.connected(5, "h:9000", Some(3)).unwrap();
    registry.invalidate(5);
    assert_eq!(registry.connection_for(5), Ok(ConnectionStep::Dial("h:9000".to_string())));
    registry.invalidate(6);
    assert_eq!(registry.len(), 1);
}

#[test]
fn highest_id_and_addresses() {
    let mut registry: PeerRegistry<u32> = PeerRegistry::new();
    assert_eq!(registry.highest_id(), None);
    registry.register(7, "c:3").unwrap();
    registry.register(2, "a:1").unwrap();
    registry.register(4, "b:2").unwrap();
    assert_eq!(registry.highest_id(), Some(7));
    let table = registry.addresses();
    assert_eq!(table.len(), 3);
    assert_eq!(table.key_at(0), 2);
    assert_eq!(table.key_at(1), 4);
    assert_eq!(table.key_at(2), 7);
    assert_eq!(table.get(4), Some(&"b:2".to_string()));
}

#[test]
fn peer_new_checks_the_address() {
    let p: Result<Peer<u32>, Error> = Peer::new(3, "10.0.0.3:7000");
    let p = p.unwrap();
    assert_eq!(p.id, 3);
    assert_eq!(p.addr, "10.0.0.3:7000");
    assert_eq!(p.client, None);
    assert!(!p.is_connected());
    let q: Result<Peer<u32>, Error> = Peer::new(3, "10.0.0.3");
    assert_eq!(q, Err(Error::InvalidAddress));
}

#[test]
fn peer_connect_keeps_what_the_attempt_brought() {
    let mut p: Peer<u32> = Peer::new(3, "10.0.0.3:7000").unwrap();
    assert_eq!(p.connect(None), Err(Error::PeerUnreachable));
    assert_eq!(p.client, None);
    assert_eq!(p.connect(Some(8)), Ok(()));
    assert_eq!(p.client, Some(8));
    assert!(p.is_connected());
    assert_eq!(p.connect(None), Err(Error::PeerUnreachable));
    assert_eq!(p.client, Some(8));
    assert_eq!(p.addr, "10.0.0.3:7000");
}

#[test]
fn is_connected_follows_the_stored_connection() {
    let mut registry: PeerRegistry<u32> = PeerRegistry::new();
    assert!(!registry.is_connected(5));
    registry.register(5, "h:9000").unwrap();
    assert!(!registry.is_connected(5));
    registry.connected(5, "h:9000", Some(1)).unwrap();
    assert!(registry.is_connected(5));
    registry.register(5, "h:9001").unwrap();
    assert!(!registry.is_connected(5));
}
