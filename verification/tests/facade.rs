use raftify::bindings::raft_facade::{
    EngineEvent, Leadership, Lifecycle, NodeSummary, PeerSummary, RaftFacade, Reaction,
};
use raftify::error::Error;
use raftify::recovery::SnapshotMetadata;
use raftify::registry::{ConnectionStep, PeerRegistry};
use raftify::state_machine::{AbstractStateMachine, EntryCounter, LogEntry, Rejected};

/// Keeps the payloads it was given, in the order of their arrival. Rejects an
/// empty payload.
#[derive(Debug, Clone, PartialEq, Eq)]
struct Journal {
    applied: Vec<Vec<u8>>,
    indices: Vec<u64>,
}

impl Journal {
    fn new() -> Self {
        Journal { applied: vec![], indices: vec![] }
    }
}

impl AbstractStateMachine for Journal {
    type State = ();

    fn apply(&mut self, entry: &LogEntry) -> Result<Vec<u8>, Rejected> {
        if entry.payload.is_empty() {
            return Err(Rejected {});
        }
        self.applied.push(entry.payload.clone());
        self.indices.push(entry.index);
        Ok(vec![self.applied.len() as u8])
    }

    fn snapshot(&self) -> Option<Vec<u8>> {
        let mut out = vec![];
        for (payload, index) in self.applied.iter().zip(self.indices.iter()) {
            out.push(*index as u8);
            out.push(payload.len() as u8);
            out.extend_from_slice(payload);
        }
        Some(out)
    }

    fn restore(&mut self, snapshot: &Vec<u8>) -> Result<(), Rejected> {
        let mut applied = vec![];
        let mut indices = vec![];
        let mut at = 0;
        while at < snapshot.len() {
            if at + 2 > snapshot.len() {
                return Err(Rejected {});
            }
            let index = snapshot[at] as u64;
            let len = snapshot[at + 1] as usize;
            if len == 0 || at + 2 + len > snapshot.len() {
                return Err(Rejected {});
            }
            applied.push(snapshot[at + 2..at + 2 + len].to_vec());
            indices.push(index);
            at += 2 + len;
        }
        self.applied = applied;
        self.indices = indices;
        Ok(())
    }
}

type Node = RaftFacade<Journal, &'static str, u32>;

fn node() -> Node {
    RaftFacade::build(1, "10.0.0.1:7000", Journal::new(), PeerRegistry::new(), Some("engine"))
        .unwrap()
}

fn committed(index: u64, term: u64, payload: &[u8]) -> EngineEvent {
    EngineEvent::Committed(LogEntry { index, term, payload: payload.to_vec() })
}

#[test]
fn build_gives_a_built_node() {
    let mut peers: PeerRegistry<u32> = PeerRegistry::new();
    peers.register(2, "10.0.0.2:7000").unwrap();
    let n: Node =
        RaftFacade::build(1, "10.0.0.1:7000", Journal::new(), peers.clone(), Some("engine"))
            .unwrap();
    assert_eq!(n.id(), 1);
    assert_eq!(n.address(), "10.0.0.1:7000");
    assert_eq!(n.lifecycle(), Lifecycle::Built);
    assert_eq!(n.last_applied(), SnapshotMetadata { index: 0, term: 0 });
    assert_eq!(n.peers(), &peers);
    assert_eq!(n.state_machine(), &Journal::new());
    assert_eq!(*n.engine(), "engine");
}

#[test]
fn build_rejects_a_malformed_address() {
    let r: Result<Node, Error> =
        RaftFacade::build(1, "10.0.0.1", Journal::new(), PeerRegistry::new(), Some("engine"));
    assert_eq!(r.err(), Some(Error::InvalidAddress));
    let r: Result<Node, Error> =
        RaftFacade::build(1, "10.0.0.1", Journal::new(), PeerRegistry::new(), None);
    assert_eq!(r.err(), Some(Error::InvalidAddress));
}

#[test]
fn build_without_an_engine_fails() {
    let r: Result<Node, Error> =
        RaftFacade::build(1, "10.0.0.1:7000", Journal::new(), PeerRegistry::new(), None);
    assert_eq!(r.err(), Some(Error::EngineInitError));
}

#[test]
fn run_applies_each_entry_once_in_order() {
    let mut n = node();
    let events = vec![
        committed(1, 1, b"a"),
        committed(2, 1, b"b"),
        committed(3, 2, b"c"),
        EngineEvent::Shutdown,
    ];
    assert_eq!(n.run(&events), Ok(()));
    assert_eq!(n.lifecycle(), Lifecycle::Stopped);
    assert_eq!(n.state_machine().indices, vec![1, 2, 3]);
    assert_eq!(n.state_machine().applied, vec![b"a".to_vec(), b"b".to_vec(), b"c".to_vec()]);
    assert_eq!(n.last_applied(), SnapshotMetadata { index: 3, term: 2 });
}

#[test]
fn run_passes_over_what_was_applied_before() {
    let mut n = node();
    let events = vec![
        committed(1, 1, b"a"),
        committed(1, 1, b"a"),
        committed(3, 1, b"c"),
        committed(2, 1, b"b"),
        committed(3, 1, b"c"),
        committed(4, 1, b"d"),
    ];
    assert_eq!(n.run(&events), Ok(()));
    assert_eq!(n.state_machine().indices, vec![1, 3, 4]);
    assert_eq!(n.last_applied(), SnapshotMetadata { index: 4, term: 1 });
    assert_eq!(n.lifecycle(), Lifecycle::Stopped);
}

#[test]
fn run_without_events_ends_well() {
    let mut n = node();
    assert_eq!(n.run(&vec![]), Ok(()));
    assert_eq!(n.lifecycle(), Lifecycle::Stopped);
    assert_eq!(n.last_applied(), SnapshotMetadata { index: 0, term: 0 });
}

#[test]
fn run_stops_at_shutdown() {
    let mut n = node();
    let events = vec![committed(1, 1, b"a"), EngineEvent::Shutdown, committed(2, 1, b"b")];
    assert_eq!(n.run(&events), Ok(()));
    assert_eq!(n.state_machine().indices, vec![1]);
}

#[test]
fn run_hands_on_the_error_of_the_engine() {
    let mut n = node();
    let events = vec![
        committed(1, 1, b"a"),
        EngineEvent::Failed("log store lost".to_string()),
        committed(2, 1, b"b"),
    ];
    assert_eq!(n.run(&events), Err(Error::FatalError("log store lost".to_string())));
    assert_eq!(n.lifecycle(), Lifecycle::Stopped);
    assert_eq!(n.state_machine().indices, vec![1]);
    assert_eq!(n.last_applied(), SnapshotMetadata { index: 1, term: 1 });
}

#[test]
fn run_ends_when_an_entry_is_rejected() {
    let mut n = node();
    let events = vec![committed(1, 1, b"a"), committed(2, 1, b""), committed(3, 1, b"c")];
    assert_eq!(n.run(&events), Err(Error::ApplyError(2)));
    assert_eq!(n.lifecycle(), Lifecycle::Stopped);
    assert_eq!(n.state_machine().indices, vec![1]);
}

#[test]
fn a_node_runs_once() {
    let mut n = node();
    assert_eq!(n.run(&vec![committed(1, 1, b"a")]), Ok(()));
    assert_eq!(n.run(&vec![committed(2, 1, b"b")]), Err(Error::InvalidState));
    assert_eq!(n.start(), Err(Error::InvalidState));
    assert_eq!(n.state_machine().indices, vec![1]);
    assert_eq!(n.lifecycle(), Lifecycle::Stopped);
}

#[test]
fn step_needs_a_running_node() {
    let mut n = node();
    assert_eq!(n.step(&committed(1, 1, b"a")), Reaction::Exit(Err(Error::InvalidState)));
    assert_eq!(n.lifecycle(), Lifecycle::Built);
    assert_eq!(n.start(), Ok(()));
    assert_eq!(n.lifecycle(), Lifecycle::Running);
    assert_eq!(n.step(&committed(1, 1, b"a")), Reaction::Applied(vec![1]));
    assert_eq!(n.step(&committed(1, 1, b"a")), Reaction::AlreadyApplied);
    assert_eq!(n.step(&committed(5, 2, b"e")), Reaction::Applied(vec![2]));
    assert_eq!(n.last_applied(), SnapshotMetadata { index: 5, term: 2 });
    assert_eq!(n.step(&EngineEvent::Shutdown), Reaction::Exit(Ok(())));
    assert_eq!(n.lifecycle(), Lifecycle::Stopped);
    assert_eq!(n.step(&committed(6, 2, b"f")), Reaction::Exit(Err(Error::InvalidState)));
    assert_eq!(n.state_machine().indices, vec![1, 5]);
}

#[test]
fn step_stops_on_failure_and_rejection() {
    let mut n = node();
    n.start().unwrap();
    assert_eq!(
        n.step(&EngineEvent::Failed("disk".to_string())),
        Reaction::Exit(Err(Error::FatalError("disk".to_string())))
    );
    assert_eq!(n.lifecycle(), Lifecycle::Stopped);
    let mut n = node();
    n.start().unwrap();
    assert_eq!(n.step(&committed(4, 1, b"")), Reaction::Exit(Err(Error::ApplyError(4))));
    assert_eq!(n.lifecycle(), Lifecycle::Stopped);
    let mut n = node();
    n.start().unwrap();
    assert_eq!(
        n.step(&EngineEvent::InstallSnapshot(SnapshotMetadata { index: 9, term: 2 }, vec![1])),
        Reaction::Exit(Err(Error::ApplyError(9)))
    );
    assert_eq!(n.lifecycle(), Lifecycle::Stopped);
}

#[test]
fn snapshot_then_restore_behaves_alike() {
    let mut first = node();
    first.start().unwrap();
    first.step(&committed(1, 1, b"a"));
    first.step(&committed(2, 1, b"bc"));
    let (position, data) = match first.step(&EngineEvent::SnapshotRequested) {
        Reaction::Snapshot(position, data) => (position, data),
        other => panic!("no snapshot: {:?}", other),
    };
    assert_eq!(position, SnapshotMetadata { index: 2, term: 1 });

    let mut second = node();
    second.start().unwrap();
    second.step(&committed(1, 7, b"zzz"));
    assert_eq!(
        second.step(&EngineEvent::InstallSnapshot(position, data)),
        Reaction::Restored
    );
    assert_eq!(second.last_applied(), position);
    assert_eq!(second.state_machine(), first.state_machine());

    let later = [committed(2, 1, b"bc"), committed(3, 2, b"d"), committed(4, 2, b"")];
    for event in later.iter() {
        assert_eq!(first.step(event), second.step(event));
    }
    assert_eq!(second.state_machine(), first.state_machine());
    assert_eq!(second.state_machine().indices, vec![1, 2, 3]);
    assert_eq!(second.lifecycle(), Lifecycle::Stopped);
}

#[test]
fn peers_are_reached_through_the_node() {
    let mut n = node();
    assert_eq!(n.register_peer(2, "10.0.0.2:7000"), Ok(()));
    assert_eq!(n.register_peer(3, "10.0.0.3"), Err(Error::InvalidAddress));
    assert_eq!(
        n.peers().connection_for(2),
        Ok(ConnectionStep::Dial("10.0.0.2:7000".to_string()))
    );
    assert_eq!(n.connected(2, "10.0.0.2:7000", Some(5)), Ok(()));
    assert_eq!(n.peers().connection_for(2), Ok(ConnectionStep::Ready(&5)));
    assert_eq!(n.connected(3, "10.0.0.3:7000", Some(5)), Err(Error::PeerUnreachable));
    assert!(n.remove_peer(2));
    assert!(!n.remove_peer(2));
    assert_eq!(n.peers().len(), 0);
}

#[test]
fn issue_ticket_reserves_the_next_id() {
    let mut n = node();
    n.register_peer(2, "10.0.0.2:7000").unwrap();
    assert!(n.can_reserve());
    let t = n.issue_ticket("10.0.0.3:7000", Leadership::Leader).unwrap();
    assert_eq!(t.reserved_id(), 3);
    assert_eq!(t.self_address(), "10.0.0.3:7000");
    assert_eq!(t.leader_address(), "10.0.0.1:7000");
    assert_eq!(t.peer_table().len(), 2);
    assert_eq!(t.peer_table().get(1), Some(&"10.0.0.1:7000".to_string()));
    assert_eq!(t.peer_table().get(2), Some(&"10.0.0.2:7000".to_string()));
    assert_eq!(n.peers().len(), 1);
}

#[test]
fn a_reserved_id_is_not_given_out_again() {
    let mut n = node();
    let a = n.issue_ticket("10.0.0.3:7000", Leadership::Leader).unwrap();
    let b = n.issue_ticket("10.0.0.4:7000", Leadership::Leader).unwrap();
    let c = n.issue_ticket("10.0.0.3:7000", Leadership::Leader).unwrap();
    assert_eq!(a.reserved_id(), 2);
    assert_eq!(b.reserved_id(), 3);
    assert_eq!(c.reserved_id(), 4);
    n.register_peer(9, "10.0.0.9:7000").unwrap();
    let d = n.issue_ticket("10.0.0.5:7000", Leadership::Leader).unwrap();
    assert_eq!(d.reserved_id(), 10);
    assert!(n.remove_peer(9));
    let e = n.issue_ticket("10.0.0.6:7000", Leadership::Leader).unwrap();
    assert_eq!(e.reserved_id(), 11);
}

#[test]
fn a_follower_issues_no_ticket() {
    let mut n = node();
    assert_eq!(
        n.issue_ticket(
            "10.0.0.3:7000",
            Leadership::Follower(Some("10.0.0.2:7000".to_string()))
        ),
        Err(Error::NotLeader(Some("10.0.0.2:7000".to_string())))
    );
    assert_eq!(
        n.issue_ticket("nonsense", Leadership::Follower(None)),
        Err(Error::NotLeader(None))
    );
    let t = n.issue_ticket("10.0.0.3:7000", Leadership::Leader).unwrap();
    assert_eq!(t.reserved_id(), 2);
}

#[test]
fn a_ticket_is_not_issued_to_a_malformed_address() {
    let mut n = node();
    assert_eq!(n.issue_ticket("nonsense", Leadership::Leader), Err(Error::InvalidAddress));
    let t = n.issue_ticket("10.0.0.3:7000", Leadership::Leader).unwrap();
    assert_eq!(t.reserved_id(), 2);
}

#[test]
fn can_reserve_sees_the_last_id() {
    let last: Node = RaftFacade::build(
        u64::MAX,
        "10.0.0.1:7000",
        Journal::new(),
        PeerRegistry::new(),
        Some("engine"),
    )
    .unwrap();
    assert!(!last.can_reserve());
    let mut n = node();
    n.register_peer(u64::MAX, "10.0.0.2:7000").unwrap();
    assert!(!n.can_reserve());
    n.remove_peer(u64::MAX);
    assert!(n.can_reserve());
}

#[test]
fn entry_counter_counts_and_restores() {
    let mut c = EntryCounter::new();
    assert_eq!(c.count(), 0);
    let e = LogEntry { index: 1, term: 1, payload: vec![] };
    assert_eq!(c.apply(&e), Ok(vec![1, 0, 0, 0, 0, 0, 0, 0]));
    assert_eq!(c.apply(&e), Ok(vec![2, 0, 0, 0, 0, 0, 0, 0]));
    assert_eq!(c.count(), 2);
    assert_eq!(c.snapshot(), Some(vec![2, 0, 0, 0, 0, 0, 0, 0]));
    let mut d = EntryCounter::new();
    assert_eq!(d.restore(&vec![0, 1, 0, 0, 0, 0, 0, 0]), Ok(()));
    assert_eq!(d.count(), 256);
    assert_eq!(d.restore(&vec![1, 2, 3]), Err(Rejected {}));
    assert_eq!(d.count(), 256);
    assert_eq!(d.restore(&vec![255; 8]), Ok(()));
    assert_eq!(d.count(), u64::MAX);
    assert_eq!(d.apply(&e), Err(Rejected {}));
    assert_eq!(d.restore(&c.snapshot().unwrap()), Ok(()));
    assert_eq!(d, c);
}

#[test]
fn entry_counter_runs_in_a_node() {
    let mut n: RaftFacade<EntryCounter, u8, u32> =
        RaftFacade::build(1, "10.0.0.1:7000", EntryCounter::new(), PeerRegistry::new(), Some(0))
            .unwrap();
    let events = vec![
        committed(1, 1, b"a"),
        committed(2, 1, b""),
        committed(2, 1, b"again"),
        committed(3, 1, b"c"),
    ];
    assert_eq!(n.run(&events), Ok(()));
    assert_eq!(n.state_machine().count(), 3);
    assert_eq!(n.last_applied(), SnapshotMetadata { index: 3, term: 1 });
}

#[test]
fn invalidate_through_the_node() {
    let mut n = node();
    n.register_peer(2, "10.0.0.2:7000").unwrap();
    n.connected(2, "10.0.0.2:7000", Some(5)).unwrap();
    n.invalidate(2);
    assert_eq!(
        n.peers().connection_for(2),
        Ok(ConnectionStep::Dial("10.0.0.2:7000".to_string()))
    );
    n.invalidate(3);
    assert_eq!(n.peers().len(), 1);
}

#[test]
fn debug_node_describes_without_changing() {
    let mut n = node();
    n.register_peer(3, "10.0.0.3:7000").unwrap();
    n.register_peer(2, "10.0.0.2:7000").unwrap();
    n.connected(3, "10.0.0.3:7000", Some(9)).unwrap();
    n.start().unwrap();
    n.step(&committed(4, 2, b"x"));
    let told = n.debug_node();
    assert_eq!(
        told,
        NodeSummary {
            id: 1,
            address: "10.0.0.1:7000".to_string(),
            lifecycle: Lifecycle::Running,
            applied: SnapshotMetadata { index: 4, term: 2 },
            peers: vec![
                PeerSummary { id: 2, address: "10.0.0.2:7000".to_string(), connected: false },
                PeerSummary { id: 3, address: "10.0.0.3:7000".to_string(), connected: true },
            ],
        }
    );
    assert_eq!(n.debug_node(), told);
    assert_eq!(n.last_applied(), SnapshotMetadata { index: 4, term: 2 });
    assert_eq!(n.lifecycle(), Lifecycle::Running);
}
