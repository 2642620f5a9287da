use raftify::bindings::cluster_join_ticket::{field_key, Dict, DictValue, PyClusterJoinTicket};
use raftify::id_map::IdMap;
use raftify::registry::PeerRegistry;
use raftify::ticket::{ClusterJoinTicket, TicketError, TicketField};

fn two_members() -> PeerRegistry<u32> {
    let mut peers: PeerRegistry<u32> = PeerRegistry::new();
    peers.register(2, "10.0.0.2:7000").unwrap();
    peers.register(1, "10.0.0.1:7000").unwrap();
    peers
}

fn sample() -> PyClusterJoinTicket {
    PyClusterJoinTicket::new(
        3,
        "10.0.0.3:7000".to_string(),
        "10.0.0.1:7000".to_string(),
        &two_members(),
    )
    .unwrap()
}

fn sample_dict() -> Dict {
    Dict {
        entries: vec![
            ("reserved_id".to_string(), DictValue::Int(3)),
            ("self_address".to_string(), DictValue::Text("10.0.0.3:7000".to_string())),
            ("leader_address".to_string(), DictValue::Text("10.0.0.1:7000".to_string())),
            (
                "peer_table".to_string(),
                DictValue::Table(vec![
                    (1, "10.0.0.1:7000".to_string()),
                    (2, "10.0.0.2:7000".to_string()),
                ]),
            ),
        ],
    }
}

#[test]
fn new_takes_the_addresses_of_the_registry() {
    let t = sample();
    assert_eq!(t.get_reserved_id(), 3);
    assert_eq!(t.inner.reserved_id(), 3);
    assert_eq!(t.inner.self_address(), "10.0.0.3:7000");
    assert_eq!(t.inner.leader_address(), "10.0.0.1:7000");
    let table = t.inner.peer_table();
    assert_eq!(table.len(), 2);
    assert_eq!(table.get(1), Some(&"10.0.0.1:7000".to_string()));
    assert_eq!(table.get(2), Some(&"10.0.0.2:7000".to_string()));
}

#[test]
fn new_rejects_a_reserved_id_that_is_a_member() {
    let r = PyClusterJoinTicket::new(2, "a:1".to_string(), "b:2".to_string(), &two_members());
    assert_eq!(r, Err(TicketError::ReservedIdInPeers));
    let mut table: IdMap<String> = IdMap::new();
    table.insert(4, "d:4".to_string());
    assert_eq!(
        ClusterJoinTicket::new(4, "a:1".to_string(), "b:2".to_string(), table),
        Err(TicketError::ReservedIdInPeers)
    );
}

#[test]
fn to_dict_writes_the_four_fields_in_order() {
    assert_eq!(sample().to_dict(), sample_dict());
}

#[test]
fn field_keys() {
    assert_eq!(field_key(TicketField::ReservedId), "reserved_id");
    assert_eq!(field_key(TicketField::SelfAddress), "self_address");
    assert_eq!(field_key(TicketField::LeaderAddress), "leader_address");
    assert_eq!(field_key(TicketField::PeerTable), "peer_table");
}

#[test]
fn ticket_round_trip_is_lossless() {
    let t = sample();
    let d = t.to_dict();
    let back = PyClusterJoinTicket::from_dict(&d).unwrap();
    assert_eq!(back, t);
    assert_eq!(back.to_dict(), d);
}

#[test]
fn round_trip_of_a_ticket_without_members() {
    let empty: PeerRegistry<u32> = PeerRegistry::new();
    let t = PyClusterJoinTicket::new(1, "".to_string(), "x".to_string(), &empty).unwrap();
    let d = t.to_dict();
    assert_eq!(d.entries[3], ("peer_table".to_string(), DictValue::Table(vec![])));
    assert_eq!(PyClusterJoinTicket::from_dict(&d), Ok(t));
}

#[test]
fn from_dict_takes_fields_and_table_in_any_order() {
    let d = Dict {
        entries: vec![
            (
                "peer_table".to_string(),
                DictValue::Table(vec![
                    (2, "10.0.0.2:7000".to_string()),
                    (1, "10.0.0.1:7000".to_string()),
                ]),
            ),
            ("leader_address".to_string(), DictValue::Text("10.0.0.1:7000".to_string())),
            ("comment".to_string(), DictValue::Text("passed over".to_string())),
            ("reserved_id".to_string(), DictValue::Int(3)),
            ("self_address".to_string(), DictValue::Text("10.0.0.3:7000".to_string())),
        ],
    };
    assert_eq!(PyClusterJoinTicket::from_dict(&d), Ok(sample()));
}

fn without(name: &str) -> Dict {
    let mut d = sample_dict();
    d.entries.retain(|e| e.0 != name);
    d
}

#[test]
fn from_dict_reports_a_missing_field() {
    assert_eq!(
        PyClusterJoinTicket::from_dict(&without("reserved_id")),
        Err(TicketError::MissingField(TicketField::ReservedId))
    );
    assert_eq!(
        PyClusterJoinTicket::from_dict(&without("self_address")),
        Err(TicketError::MissingField(TicketField::SelfAddress))
    );
    assert_eq!(
        PyClusterJoinTicket::from_dict(&without("leader_address")),
        Err(TicketError::MissingField(TicketField::LeaderAddress))
    );
    assert_eq!(
        PyClusterJoinTicket::from_dict(&without("peer_table")),
        Err(TicketError::MissingField(TicketField::PeerTable))
    );
    assert_eq!(
        PyClusterJoinTicket::from_dict(&Dict { entries: vec![] }),
        Err(TicketError::MissingField(TicketField::ReservedId))
    );
}

#[test]
fn from_dict_reports_a_field_given_twice() {
    let mut d = sample_dict();
    d.entries.push(("leader_address".to_string(), DictValue::Text("10.0.0.1:7000".to_string())));
    assert_eq!(
        PyClusterJoinTicket::from_dict(&d),
        Err(TicketError::DuplicateField(TicketField::LeaderAddress))
    );
}

#[test]
fn from_dict_reports_a_value_of_the_wrong_kind() {
    let mut d = sample_dict();
    d.entries[0].1 = DictValue::Text("3".to_string());
    assert_eq!(
        PyClusterJoinTicket::from_dict(&d),
        Err(TicketError::WrongType(TicketField::ReservedId))
    );
    let mut d = sample_dict();
    d.entries[1].1 = DictValue::Int(7);
    assert_eq!(
        PyClusterJoinTicket::from_dict(&d),
        Err(TicketError::WrongType(TicketField::SelfAddress))
    );
    let mut d = sample_dict();
    d.entries[3].1 = DictValue::Text("1".to_string());
    assert_eq!(
        PyClusterJoinTicket::from_dict(&d),
        Err(TicketError::WrongType(TicketField::PeerTable))
    );
}

#[test]
fn from_dict_reports_the_first_field_at_fault() {
    let mut d = without("leader_address");
    d.entries[0].1 = DictValue::Text("3".to_string());
    assert_eq!(
        PyClusterJoinTicket::from_dict(&d),
        Err(TicketError::WrongType(TicketField::ReservedId))
    );
}

#[test]
fn from_dict_reports_a_peer_listed_twice() {
    let mut d = sample_dict();
    d.entries[3].1 = DictValue::Table(vec![
        (1, "10.0.0.1:7000".to_string()),
        (2, "10.0.0.2:7000".to_string()),
        (1, "10.0.0.9:7000".to_string()),
    ]);
    assert_eq!(PyClusterJoinTicket::from_dict(&d), Err(TicketError::DuplicatePeer));
}

#[test]
fn from_dict_reports_a_reserved_id_among_the_peers() {
    let mut d = sample_dict();
    d.entries[0].1 = DictValue::Int(2);
    assert_eq!(PyClusterJoinTicket::from_dict(&d), Err(TicketError::ReservedIdInPeers));
}
