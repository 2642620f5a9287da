//! The node facade: it owns the peer registry, the application's state
//! machine and the handle of the consensus engine for as long as the node
//! runs, and hands what the engine commits to the state machine.
//!
//! The engine itself is not in this library. Whoever embeds the node waits
//! for the engine's next event, gives it to `step`, carries out what comes
//! back, and stops when told to. `run` does the same over events that are
//! already at hand.

use vstd::prelude::*;
use vstd::string::StringExecFns;
use crate::address::{is_valid, is_valid_address};
use crate::error::Error;
use crate::id_map::{as_map, has_key, index_of_key, keys_increasing, lemma_entry_in_map, text_map};
use crate::peer::PeerView;
use crate::recovery::SnapshotMetadata;
use crate::registry::{address_map, attempt_accepted, invalidated, registered, PeerRegistry};
use crate::state_machine::{AbstractStateMachine, LogEntry};
use crate::ticket::{ClusterJoinTicket, TicketView};

verus! {

/// The stages of a node's life. A node goes through them once, in this
/// order; one that has stopped is not started again.
#[derive(Debug, Clone, Copy, PartialEq, Eq, Structural)]
pub enum Lifecycle {
    /// Built, and not yet run.
    Built,
    /// Taking events from the engine.
    Running,
    /// The engine has ended.
    Stopped,
}

/// What the consensus engine tells the node.
#[derive(Debug, Clone, PartialEq, Eq)]
pub enum EngineEvent {
    /// An entry is committed and is to be applied.
    Committed(LogEntry),
    /// The engine asks for a snapshot of the application's state.
    SnapshotRequested,
    /// The application's state is to be replaced by the snapshot given, which
    /// covers the log up to the position given.
    InstallSnapshot(SnapshotMetadata, Vec<u8>),
    /// The engine was asked to shut down and has done so.
    Shutdown,
    /// The engine ended with the error described.
    Failed(String),
}

/// What the node did with an event, for the engine to act on.
#[derive(Debug, PartialEq, Eq)]
pub enum Reaction {
    /// The entry was applied; this is the state machine's answer.
    Applied(Vec<u8>),
    /// The entry was applied before and was passed over.
    AlreadyApplied,
    /// A snapshot of the state after the entry at the position given.
    Snapshot(SnapshotMetadata, Vec<u8>),
    /// The state machine gave no snapshot.
    NoSnapshot,
    /// The state was replaced by the snapshot.
    Restored,
    /// The node has stopped, with this result.
    Exit(Result<(), Error>),
}

/// A node as a mathematical value. `T` is the abstract state of its state
/// machine, `C` the type of a connection.
pub struct NodeView<T, C> {
    /// The node's identifier.
    pub id: u64,
    /// The node's own address.
    pub address: Seq<char>,
    /// The stage of life the node is in.
    pub lifecycle: Lifecycle,
    /// The position of the last entry applied.
    pub applied: SnapshotMetadata,
    /// The state of the state machine.
    pub machine: T,
    /// The peer registry.
    pub peers: Map<u64, PeerView<C>>,
    /// The greatest identifier that the node has reserved for a joining
    /// node, or zero if it has reserved none.
    pub reserved: u64,
}

/// What a member knows of who leads the cluster.
#[derive(Debug, Clone, PartialEq, Eq)]
pub enum Leadership {
    /// The member is the leader.
    Leader,
    /// Another member leads; the address is that of the leader as far as
    /// this member knows it.
    Follower(Option<String>),
}

/// Whether a node has no identifier left to reserve: the greatest of all is
/// taken already.
pub open spec fn ids_exhausted<T, C>(node: NodeView<T, C>) -> bool {
    node.id == u64::MAX || node.reserved == u64::MAX || node.peers.contains_key(u64::MAX)
}

/// Whether `id` is greater than every identifier that a node knows: its own,
/// those of its peers, and those it has reserved.
pub open spec fn beyond_known<T, C>(node: NodeView<T, C>, id: u64) -> bool {
    &&& id > node.id
    &&& id > node.reserved
    &&& forall|k: u64| #[trigger] node.peers.contains_key(k) ==> id > k
}

/// The identifier that a node reserves next: the least that is greater than
/// every identifier it knows.
pub open spec fn next_id<T, C>(node: NodeView<T, C>) -> u64
    recommends
        !ids_exhausted(node),
{
    choose|id: u64| beyond_known(node, id) && forall|other: u64| #[trigger]
        beyond_known(node, other) ==> id <= other
}

/// The ticket that a leader writes for a node that asks to join from
/// `requested`: the next identifier, the asking node's address, the leader's
/// own address, and the members of the cluster, the leader among them.
pub open spec fn ticket_for<T, C>(node: NodeView<T, C>, requested: Seq<char>) -> TicketView {
    TicketView {
        reserved_id: next_id(node),
        self_address: requested,
        leader_address: node.address,
        peer_table: address_map(node.peers).insert(node.id, node.address),
    }
}

/// What a node tells about one of its peers.
#[derive(Debug, Clone, PartialEq, Eq)]
pub struct PeerSummary {
    /// The peer's identifier.
    pub id: u64,
    /// The peer's address.
    pub address: String,
    /// Whether a connection to the peer is stored.
    pub connected: bool,
}

/// What a node tells about itself when it is asked.
#[derive(Debug, Clone, PartialEq, Eq)]
pub struct NodeSummary {
    /// The node's identifier.
    pub id: u64,
    /// The node's own address.
    pub address: String,
    /// The stage of life the node is in.
    pub lifecycle: Lifecycle,
    /// The position of the last entry applied.
    pub applied: SnapshotMetadata,
    /// The peers, in increasing order of identifier.
    pub peers: Vec<PeerSummary>,
}

/// The summaries in `v` as pairs of an identifier and what is told of it.
pub open spec fn told(v: Seq<PeerSummary>) -> Seq<(u64, (Seq<char>, bool))> {
    Seq::new(v.len(), |i: int| (v[i].id, (v[i].address@, v[i].connected)))
}

/// What there is to tell of each peer of a registry: its address, and
/// whether a connection to it is stored.
pub open spec fn to_tell<C>(m: Map<u64, PeerView<C>>) -> Map<u64, (Seq<char>, bool)> {
    Map::new(|id: u64| m.contains_key(id), |id: u64| (m[id].address, m[id].connection is Some))
}

/// How far a node has come: the position of the last entry applied, and the
/// state that applying has led to.
pub struct Progress<T> {
    /// The position of the last entry applied.
    pub applied: SnapshotMetadata,
    /// The state of the state machine.
    pub machine: T,
}

/// How a run ended, and how far the node had come by then.
pub struct Outcome<T> {
    /// The progress made. Where the state machine rejected an entry or a
    /// snapshot, this is the progress made before that.
    pub progress: Progress<T>,
    /// The result of the run.
    pub exit: Result<(), Error>,
}

/// The position of an entry in the log.
pub open spec fn position_of(entry: LogEntry) -> SnapshotMetadata {
    SnapshotMetadata { index: entry.index, term: entry.term }
}

/// The course of a run that starts with the progress `p` and meets `events`
/// in their order.
///
/// A committed entry is applied if its index lies beyond the last one
/// applied, and passed over if not. A snapshot that is installed replaces the
/// state and sets the position. The run ends well when the engine shuts down
/// or has no more events, with the engine's error when it fails, and with
/// `ApplyError` when the state machine rejects an entry or a snapshot.
pub open spec fn replay<S: AbstractStateMachine>(p: Progress<S::State>, events: Seq<EngineEvent>)
    -> Outcome<S::State>
    decreases events.len(),
{
    if events.len() == 0 {
        Outcome { progress: p, exit: Ok(()) }
    } else {
        let rest = events.drop_first();
        match events[0] {
            EngineEvent::Committed(entry) => if entry.index <= p.applied.index {
                replay::<S>(p, rest)
            } else {
                match S::transition(p.machine, entry@) {
                    Some((next, _)) => replay::<S>(
                        Progress { applied: position_of(entry), machine: next },
                        rest,
                    ),
                    None => Outcome { progress: p, exit: Err(Error::ApplyError(entry.index)) },
                }
            },
            EngineEvent::SnapshotRequested => replay::<S>(p, rest),
            EngineEvent::InstallSnapshot(position, data) => match S::decode(data@) {
                Some(state) => replay::<S>(Progress { applied: position, machine: state }, rest),
                None => Outcome { progress: p, exit: Err(Error::ApplyError(position.index)) },
            },
            EngineEvent::Shutdown => Outcome { progress: p, exit: Ok(()) },
            EngineEvent::Failed(reason) => Outcome {
                progress: p,
                exit: Err(Error::FatalError(reason)),
            },
        }
    }
}

/// Whether `after` and `r` are what a running node `before` makes of `event`.
pub open spec fn reacts<S: AbstractStateMachine, C>(
    before: NodeView<S::State, C>,
    event: EngineEvent,
    after: NodeView<S::State, C>,
    r: Reaction,
) -> bool {
    match event {
        EngineEvent::Committed(entry) => if entry.index <= before.applied.index {
            r == Reaction::AlreadyApplied && after == before
        } else {
            match S::transition(before.machine, entry@) {
                Some((next, answer)) => {
                    &&& r matches Reaction::Applied(bytes) && bytes@ == answer
                    &&& after == NodeView { applied: position_of(entry), machine: next, ..before }
                },
                None => {
                    &&& r == Reaction::Exit(Err(Error::ApplyError(entry.index)))
                    &&& after == NodeView {
                        lifecycle: Lifecycle::Stopped,
                        machine: after.machine,
                        ..before
                    }
                },
            }
        },
        EngineEvent::SnapshotRequested => {
            &&& after == before
            &&& match r {
                Reaction::Snapshot(position, data) => position == before.applied && S::decode(data@)
                    == Some(before.machine),
                Reaction::NoSnapshot => true,
                _ => false,
            }
        },
        EngineEvent::InstallSnapshot(position, data) => match S::decode(data@) {
            Some(state) => {
                &&& r == Reaction::Restored
                &&& after == NodeView { applied: position, machine: state, ..before }
            },
            None => {
                &&& r == Reaction::Exit(Err(Error::ApplyError(position.index)))
                &&& after == NodeView {
                    lifecycle: Lifecycle::Stopped,
                    machine: after.machine,
                    ..before
                }
            },
        },
        EngineEvent::Shutdown => {
            &&& r == Reaction::Exit(Ok(()))
            &&& after == NodeView { lifecycle: Lifecycle::Stopped, ..before }
        },
        EngineEvent::Failed(reason) => {
            &&& r == Reaction::Exit(Err(Error::FatalError(reason)))
            &&& after == NodeView { lifecycle: Lifecycle::Stopped, ..before }
        },
    }
}

/// A node: its identity, the resources it owns, and the stage of its life.
/// `S` is the application's state machine, `E` the handle of the consensus
/// engine, `C` the type of a connection to a peer.
pub struct RaftFacade<S: AbstractStateMachine, E, C> {
    id: u64,
    address: String,
    state_machine: S,
    peers: PeerRegistry<C>,
    engine: E,
    lifecycle: Lifecycle,
    applied: SnapshotMetadata,
    reserved: u64,
}

impl<S: AbstractStateMachine, E, C> View for RaftFacade<S, E, C> {
    type V = NodeView<S::State, C>;

    closed spec fn view(&self) -> NodeView<S::State, C> {
        NodeView {
            id: self.id,
            address: self.address@,
            lifecycle: self.lifecycle,
            applied: self.applied,
            machine: self.state_machine.state(),
            peers: self.peers@,
            reserved: self.reserved,
        }
    }
}

impl<S: AbstractStateMachine, E, C> RaftFacade<S, E, C> {
    /// The invariant of a node: its registry is well formed, and so is its
    /// own address.
    pub closed spec fn wf(&self) -> bool {
        &&& self.peers.wf()
        &&& is_valid_address(self.address@)
    }

    /// The engine handle that the node owns.
    pub closed spec fn engine_handle(&self) -> E {
        self.engine
    }

    /// Builds a node.
    ///
    /// `engine` is what constructing the consensus engine for this node gave:
    /// the handle, or nothing where it could not be constructed. Fails with
    /// `InvalidAddress` exactly when `addr` is malformed, and else with
    /// `EngineInitError` exactly when there is no engine. The node that comes
    /// back has the peers given, has applied nothing, and is in the stage
    /// `Built`.
    pub fn build(node_id: u64, addr: &str, fsm: S, initial_peers: PeerRegistry<C>, engine: Option<E>)
        -> (r: Result<Self, Error>)
        requires
            initial_peers.wf(),
        ensures
            !is_valid_address(addr@) ==> r == Err::<Self, Error>(Error::InvalidAddress),
            is_valid_address(addr@) && engine is None ==> r == Err::<Self, Error>(
                Error::EngineInitError,
            ),
            is_valid_address(addr@) && engine is Some ==> r is Ok,
            r matches Ok(node) ==> node.wf() && node.engine_handle() == engine->0 && node@ == (NodeView::<
                S::State,
                C,
            > {
                id: node_id,
                address: addr@,
                lifecycle: Lifecycle::Built,
                applied: SnapshotMetadata::empty(),
                machine: fsm.state(),
                peers: initial_peers@,
                reserved: 0,
            }),
    {
        if !is_valid(addr) {
            return Err(Error::InvalidAddress);
        }
        match engine {
            None => Err(Error::EngineInitError),
            Some(handle) => Ok(
                RaftFacade {
                    id: node_id,
                    address: String::from_str(addr),
                    state_machine: fsm,
                    peers: initial_peers,
                    engine: handle,
                    lifecycle: Lifecycle::Built,
                    applied: SnapshotMetadata { index: 0, term: 0 },
                    reserved: 0,
                },
            ),
        }
    }

    /// The node's identifier.
    pub fn id(&self) -> (id: u64)
        ensures
            id == self@.id,
    {
        self.id
    }

    /// The node's own address.
    pub fn address(&self) -> (a: &String)
        ensures
            a@ == self@.address,
            self.wf() ==> is_valid_address(a@),
    {
        &self.address
    }

    /// The stage of life the node is in.
    pub fn lifecycle(&self) -> (l: Lifecycle)
        ensures
            l == self@.lifecycle,
    {
        self.lifecycle
    }

    /// The position of the last entry applied.
    pub fn last_applied(&self) -> (p: SnapshotMetadata)
        ensures
            p == self@.applied,
    {
        self.applied
    }

    /// The peer registry.
    pub fn peers(&self) -> (p: &PeerRegistry<C>)
        ensures
            p@ == self@.peers,
            self.wf() ==> p.wf(),
    {
        &self.peers
    }

    /// The state machine.
    pub fn state_machine(&self) -> (s: &S)
        ensures
            s.state() == self@.machine,
    {
        &self.state_machine
    }

    /// The handle of the consensus engine.
    pub fn engine(&self) -> (e: &E)
        ensures
            *e == self.engine_handle(),
    {
        &self.engine
    }

    /// Describes the node: who it is, how far it has come, and whom it
    /// knows. Nothing is changed by asking.
    pub fn debug_node(&self) -> (r: NodeSummary)
        requires
            self.wf(),
        ensures
            r.id == self@.id,
            r.address@ == self@.address,
            r.lifecycle == self@.lifecycle,
            r.applied == self@.applied,
            keys_increasing(told(r.peers@)),
            as_map(told(r.peers@)) == to_tell(self@.peers),
    {
        let table = self.peers.addresses();
        let ghost s = table.seq();
        let ghost known = self@.peers;
        let n: usize = table.len();
        let mut peers: Vec<PeerSummary> = Vec::new();
        let mut i: usize = 0;
        while i < n
            invariant
                self.wf(),
                known == self@.peers,
                s == table.seq(),
                n == s.len(),
                i <= n,
                peers@.len() == i,
                forall|j: int|
                    0 <= j < i ==> (#[trigger] peers@[j]).id == s[j].0 && peers@[j].address@
                        == s[j].1@ && peers@[j].connected == (known.contains_key(s[j].0)
                        && known[s[j].0].connection is Some),
            decreases n - i,
        {
            let id: u64 = table.key_at(i);
            let summary = PeerSummary {
                id,
                address: table.value_at(i).clone(),
                connected: self.peers.is_connected(id),
            };
            peers.push(summary);
            i = i + 1;
        }
        proof {
            let t = told(peers@);
            assert(t.len() == s.len());
            assert forall|j: int| 0 <= j < t.len() implies (#[trigger] t[j]) == (
                s[j].0,
                (s[j].1@, known.contains_key(s[j].0) && known[s[j].0].connection is Some),
            ) by {
                assert(peers@[j].id == s[j].0);
            }
            assert(keys_increasing(t)) by {
                assert forall|a: int, b: int| 0 <= a < b < t.len() implies (#[trigger] t[a]).0 < (
                #[trigger] t[b]).0 by {
                    assert(s[a].0 < s[b].0);
                }
            }
            assert forall|k: u64| has_key(t, k) <==> has_key(s, k) by {
                if has_key(t, k) {
                    let j = index_of_key(t, k);
                    assert(s[j].0 == k);
                }
                if has_key(s, k) {
                    let j = index_of_key(s, k);
                    assert(t[j].0 == k);
                }
            }
            assert forall|k: u64| has_key(s, k) == known.contains_key(k) by {
                assert(table@.contains_key(k) == text_map(table@).contains_key(k));
                assert(known.contains_key(k) == address_map(known).contains_key(k));
            }
            assert forall|k: u64| has_key(t, k) implies #[trigger] as_map(t)[k] == to_tell(known)[k] by {
                let j = index_of_key(s, k);
                lemma_entry_in_map(s, j);
                assert(t[j].0 == k);
                lemma_entry_in_map(t, j);
                assert(text_map(table@)[k] == address_map(known)[k]);
            }
            assert(as_map(t) =~= to_tell(known));
        }
        NodeSummary {
            id: self.id,
            address: self.address.clone(),
            lifecycle: self.lifecycle,
            applied: self.applied,
            peers,
        }
    }

    /// Takes the node from `Built` to `Running`.
    ///
    /// Fails with `InvalidState` in any other stage, and then changes
    /// nothing.
    pub fn start(&mut self) -> (r: Result<(), Error>)
        requires
            old(self).wf(),
        ensures
            final(self).wf(),
            final(self).engine_handle() == old(self).engine_handle(),
            old(self)@.lifecycle == Lifecycle::Built ==> r is Ok && final(self)@ == (NodeView {
                lifecycle: Lifecycle::Running,
                ..old(self)@
            }),
            old(self)@.lifecycle != Lifecycle::Built ==> r == Err::<(), Error>(Error::InvalidState)
                && final(self)@ == old(self)@,
    {
        match self.lifecycle {
            Lifecycle::Built => {
                self.lifecycle = Lifecycle::Running;
                Ok(())
            },
            _ => Err(Error::InvalidState),
        }
    }

    /// Takes in one event from the engine.
    ///
    /// A node that is not running answers `Exit` with `InvalidState` and
    /// stays as it is. A running node does what `reacts` describes: it hands
    /// a committed entry to the state machine unless the entry was applied
    /// before, asks the state machine for a snapshot or gives it one, and
    /// stops when the engine has ended or the state machine rejects what it
    /// is given.
    pub fn step(&mut self, event: &EngineEvent) -> (r: Reaction)
        requires
            old(self).wf(),
        ensures
            final(self).wf(),
            final(self).engine_handle() == old(self).engine_handle(),
            old(self)@.lifecycle == Lifecycle::Running ==> reacts::<S, C>(
                old(self)@,
                *event,
                final(self)@,
                r,
            ),
            old(self)@.lifecycle != Lifecycle::Running ==> r == Reaction::Exit(
                Err(Error::InvalidState),
            ) && final(self)@ == old(self)@,
    {
        match self.lifecycle {
            Lifecycle::Running => {},
            _ => {
                return Reaction::Exit(Err(Error::InvalidState));
            },
        }
        match event {
            EngineEvent::Committed(entry) => {
                if entry.index <= self.applied.index {
                    Reaction::AlreadyApplied
                } else {
                    match self.state_machine.apply(entry) {
                        Ok(answer) => {
                            self.applied = SnapshotMetadata { index: entry.index, term: entry.term };
                            Reaction::Applied(answer)
                        },
                        Err(_) => {
                            self.lifecycle = Lifecycle::Stopped;
                            Reaction::Exit(Err(Error::ApplyError(entry.index)))
                        },
                    }
                }
            },
            EngineEvent::SnapshotRequested => match self.state_machine.snapshot() {
                Some(data) => Reaction::Snapshot(self.applied, data),
                None => Reaction::NoSnapshot,
            },
            EngineEvent::InstallSnapshot(position, data) => match self.state_machine.restore(data) {
                Ok(_) => {
                    self.applied = *position;
                    Reaction::Restored
                },
                Err(_) => {
                    self.lifecycle = Lifecycle::Stopped;
                    Reaction::Exit(Err(Error::ApplyError(position.index)))
                },
            },
            EngineEvent::Shutdown => {
                self.lifecycle = Lifecycle::Stopped;
                Reaction::Exit(Ok(()))
            },
            EngineEvent::Failed(reason) => {
                self.lifecycle = Lifecycle::Stopped;
                Reaction::Exit(Err(Error::FatalError(reason.clone())))
            },
        }
    }
    /// Runs the node over the events given, from `Built` to `Stopped`.
    ///
    /// Fails with `InvalidState`, and changes nothing, unless the node is in
    /// the stage `Built`: a node runs once. Otherwise the events are taken in
    /// their order until one ends the run or none is left, as `replay`
    /// describes, and the result is that of the run: `Ok` when the engine
    /// shut down or had no more to say, the engine's own error when it
    /// failed, `ApplyError` when the state machine rejected an entry or a
    /// snapshot. What the state machine answers on the way is not kept.
    pub fn run(&mut self, events: &Vec<EngineEvent>) -> (r: Result<(), Error>)
        requires
            old(self).wf(),
        ensures
            final(self).wf(),
            final(self).engine_handle() == old(self).engine_handle(),
            old(self)@.lifecycle != Lifecycle::Built ==> r == Err::<(), Error>(Error::InvalidState)
                && final(self)@ == old(self)@,
            old(self)@.lifecycle == Lifecycle::Built ==> ({
                let out = replay::<S>(
                    Progress { applied: old(self)@.applied, machine: old(self)@.machine },
                    events@,
                );
                &&& r == out.exit
                &&& final(self)@ == NodeView {
                    lifecycle: Lifecycle::Stopped,
                    applied: final(self)@.applied,
                    machine: final(self)@.machine,
                    ..old(self)@
                }
                &&& final(self)@.applied == out.progress.applied
                &&& !(r matches Err(Error::ApplyError(_))) ==> final(self)@.machine
                    == out.progress.machine
            }),
    {
        match self.start() {
            Err(e) => {
                return Err(e);
            },
            Ok(_) => {},
        }
        let ghost begun = self@;
        let ghost goal = replay::<S>(
            Progress { applied: begun.applied, machine: begun.machine },
            events@,
        );
        let n: usize = events.len();
        let mut i: usize = 0;
        assert(events@.subrange(0, n as int) == events@);
        while i < n
            invariant
                self.wf(),
                self.engine_handle() == old(self).engine_handle(),
                n == events@.len(),
                i <= n,
                self@ == (NodeView { applied: self@.applied, machine: self@.machine, ..begun }),
                old(self)@.lifecycle == Lifecycle::Built,
                begun == (NodeView { lifecycle: Lifecycle::Running, ..old(self)@ }),
                goal == replay::<S>(
                    Progress { applied: old(self)@.applied, machine: old(self)@.machine },
                    events@,
                ),
                replay::<S>(
                    Progress { applied: self@.applied, machine: self@.machine },
                    events@.subrange(i as int, n as int),
                ) == goal,
            decreases n - i,
        {
            proof {
                let left = events@.subrange(i as int, n as int);
                assert(left[0] == events@[i as int]);
                assert(left.drop_first() == events@.subrange(i + 1, n as int));
            }
            let reaction = self.step(&events[i]);
            match reaction {
                Reaction::Exit(result) => {
                    return result;
                },
                _ => {},
            }
            i = i + 1;
        }
        self.lifecycle = Lifecycle::Stopped;
        Ok(())
    }

    /// Registers a peer, as `PeerRegistry::register` does.
    pub fn register_peer(&mut self, id: u64, address: &str) -> (r: Result<(), Error>)
        requires
            old(self).wf(),
        ensures
            final(self).wf(),
            final(self).engine_handle() == old(self).engine_handle(),
            is_valid_address(address@) ==> r is Ok && final(self)@ == (NodeView {
                peers: old(self)@.peers.insert(id, registered(old(self)@.peers, id, address@)),
                ..old(self)@
            }),
            !is_valid_address(address@) ==> r == Err::<(), Error>(Error::InvalidAddress) && final(self)@ == old(self)@,
    {
        self.peers.register(id, address)
    }

    /// Drops a peer and any connection to it, as `PeerRegistry::remove`
    /// does.
    pub fn remove_peer(&mut self, id: u64) -> (r: bool)
        requires
            old(self).wf(),
        ensures
            final(self).wf(),
            final(self).engine_handle() == old(self).engine_handle(),
            r == old(self)@.peers.contains_key(id),
            final(self)@ == (NodeView { peers: old(self)@.peers.remove(id), ..old(self)@ }),
    {
        self.peers.remove(id)
    }

    /// Takes in how an attempt to reach a peer ended, as
    /// `PeerRegistry::connected` does.
    pub fn connected(&mut self, id: u64, address: &str, attempt: Option<C>) -> (r: Result<(), Error>)
        requires
            old(self).wf(),
        ensures
            final(self).wf(),
            final(self).engine_handle() == old(self).engine_handle(),
            attempt_accepted(old(self)@.peers, id, address@, attempt) ==> r is Ok && final(self)@
                == (NodeView {
                peers: old(self)@.peers.insert(
                    id,
                    PeerView { address: address@, connection: attempt },
                ),
                ..old(self)@
            }),
            !attempt_accepted(old(self)@.peers, id, address@, attempt) ==> r == Err::<(), Error>(
                Error::PeerUnreachable,
            ) && final(self)@ == old(self)@,
    {
        self.peers.connected(id, address, attempt)
    }

    /// Drops the connection stored for a peer, as `PeerRegistry::invalidate`
    /// does.
    pub fn invalidate(&mut self, id: u64)
        requires
            old(self).wf(),
        ensures
            final(self).wf(),
            final(self).engine_handle() == old(self).engine_handle(),
            final(self)@ == (NodeView { peers: invalidated(old(self)@.peers, id), ..old(self)@ }),
    {
        self.peers.invalidate(id)
    }

    /// Whether the node has an identifier left to reserve.
    pub fn can_reserve(&self) -> (r: bool)
        requires
            self.wf(),
        ensures
            r == !ids_exhausted(self@),
    {
        self.id < u64::MAX && self.reserved < u64::MAX && !self.peers.contains(u64::MAX)
    }

    /// Answers a request to join the cluster from a node at
    /// `requested_address`.
    ///
    /// Fails with `NotLeader`, carrying the hint, when this member does not
    /// lead, and else with `InvalidAddress` when the address asked from is
    /// malformed; nothing is reserved then. Otherwise reserves the next
    /// identifier and gives the ticket that `ticket_for` describes. An
    /// identifier once reserved is not given out again, whether or not the
    /// ticket is ever used.
    pub fn issue_ticket(&mut self, requested_address: &str, leadership: Leadership) -> (r: Result<
        ClusterJoinTicket,
        Error,
    >)
        requires
            old(self).wf(),
            !ids_exhausted(old(self)@),
        ensures
            final(self).wf(),
            final(self).engine_handle() == old(self).engine_handle(),
            match leadership {
                Leadership::Follower(hint) => r == Err::<ClusterJoinTicket, Error>(
                    Error::NotLeader(hint),
                ) && final(self)@ == old(self)@,
                Leadership::Leader => if !is_valid_address(requested_address@) {
                    r == Err::<ClusterJoinTicket, Error>(Error::InvalidAddress) && final(self)@
                        == old(self)@
                } else {
                    &&& r matches Ok(ticket) && ticket.wf() && ticket@ == ticket_for(
                        old(self)@,
                        requested_address@,
                    )
                    &&& final(self)@ == NodeView { reserved: next_id(old(self)@), ..old(self)@ }
                },
            },
    {
        match leadership {
            Leadership::Follower(hint) => {
                return Err(Error::NotLeader(hint));
            },
            Leadership::Leader => {},
        }
        if !is_valid(requested_address) {
            return Err(Error::InvalidAddress);
        }
        let mut highest: u64 = if self.id > self.reserved {
            self.id
        } else {
            self.reserved
        };
        match self.peers.highest_id() {
            Some(k) => {
                if k > highest {
                    highest = k;
                }
            },
            None => {},
        }
        let id: u64 = highest + 1;
        proof {
            lemma_next_id(self@, id);
        }
        let mut table = self.peers.addresses();
        let ghost others = table@;
        table.insert(self.id, self.address.clone());
        assert(text_map(table@) =~= text_map(others).insert(self@.id, self@.address));
        assert(table@.contains_key(id) == text_map(table@).contains_key(id));
        assert(self@.peers.contains_key(id) == address_map(self@.peers).contains_key(id));
        match ClusterJoinTicket::new(
            id,
            String::from_str(requested_address),
            self.address.clone(),
            table,
        ) {
            Ok(ticket) => {
                self.reserved = id;
                Ok(ticket)
            },
            // The identifier is beyond every member's, so it is in no table.
            Err(_) => Err(Error::InvalidState),
        }
    }
}

/// The identifier just above the greatest that a node knows is the one it
/// reserves next.
pub proof fn lemma_next_id<T, C>(node: NodeView<T, C>, id: u64)
    requires
        id >= 1,
        beyond_known(node, id),
        (id - 1) as u64 == node.id || (id - 1) as u64 == node.reserved || node.peers.contains_key(
            (id - 1) as u64,
        ),
    ensures
        next_id(node) == id,
{
    assert forall|other: u64| #[trigger] beyond_known(node, other) implies id <= other by {
        if other < id {
            assert(other <= id - 1);
        }
    }
    let chosen = next_id(node);
    assert(beyond_known(node, chosen) && forall|other: u64| #[trigger]
        beyond_known(node, other) ==> chosen <= other);
}

/// Below an identifier that is greater than all that a node knows, there is
/// a least such identifier.
proof fn lemma_least_beyond<T, C>(node: NodeView<T, C>, k: u64)
    requires
        beyond_known(node, k),
    ensures
        exists|id: u64|
            beyond_known(node, id) && forall|other: u64| #[trigger]
                beyond_known(node, other) ==> id <= other,
    decreases k,
{
    if exists|j: u64| j < k && beyond_known(node, j) {
        let j = choose|j: u64| j < k && beyond_known(node, j);
        lemma_least_beyond(node, j);
    } else {
        assert(beyond_known(node, k) && forall|other: u64| #[trigger]
            beyond_known(node, other) ==> k <= other);
    }
}

/// The identifier that a node reserves next is new: it is greater than the
/// node's own, than those of all its peers, and than every identifier the
/// node has reserved before. So no identifier is given out twice.
pub proof fn lemma_next_id_is_new<T, C>(node: NodeView<T, C>)
    requires
        !ids_exhausted(node),
    ensures
        beyond_known(node, next_id(node)),
        next_id(node) > node.reserved,
{
    assert(beyond_known(node, u64::MAX));
    lemma_least_beyond(node, u64::MAX);
}

/// The events by which the engine delivers `entries`, one committed entry
/// after the other.
pub open spec fn commits(entries: Seq<LogEntry>) -> Seq<EngineEvent> {
    Seq::new(entries.len(), |i: int| EngineEvent::Committed(entries[i]))
}

/// Whether the indices of `entries` strictly increase.
pub open spec fn indices_increase(entries: Seq<LogEntry>) -> bool {
    forall|i: int, j: int|
        0 <= i < j < entries.len() ==> (#[trigger] entries[i]).index < (#[trigger] entries[j]).index
}

/// The state reached from `state` by applying each of `entries` once, in
/// their order; nothing where the state machine rejects one of them.
pub open spec fn apply_all<S: AbstractStateMachine>(state: S::State, entries: Seq<LogEntry>)
    -> Option<S::State>
    decreases entries.len(),
{
    if entries.len() == 0 {
        Some(state)
    } else {
        match S::transition(state, entries[0]@) {
            Some((next, _)) => apply_all::<S>(next, entries.drop_first()),
            None => None,
        }
    }
}

/// The position reached after `entries`, starting at `start`.
pub open spec fn position_after(start: SnapshotMetadata, entries: Seq<LogEntry>) -> SnapshotMetadata {
    if entries.len() == 0 {
        start
    } else {
        position_of(entries.last())
    }
}

/// Committed entries that arrive in strictly increasing order of index, all
/// beyond the last one applied, are applied once each, in that order: the run
/// ends in the state that applying them one by one leads to, at the position
/// of the last, and ends with `ApplyError` where the state machine rejects
/// one.
pub proof fn lemma_applied_once_in_order<S: AbstractStateMachine>(
    p: Progress<S::State>,
    entries: Seq<LogEntry>,
)
    requires
        indices_increase(entries),
        entries.len() > 0 ==> entries[0].index > p.applied.index,
    ensures
        match apply_all::<S>(p.machine, entries) {
            Some(state) => replay::<S>(p, commits(entries)) == (Outcome {
                progress: Progress { applied: position_after(p.applied, entries), machine: state },
                exit: Ok(()),
            }),
            None => replay::<S>(p, commits(entries)).exit matches Err(Error::ApplyError(_)),
        },
    decreases entries.len(),
{
    let events = commits(entries);
    if entries.len() > 0 {
        let rest = entries.drop_first();
        assert(events[0] == EngineEvent::Committed(entries[0]));
        assert(events.drop_first() == commits(rest));
        match S::transition(p.machine, entries[0]@) {
            Some((next, _)) => {
                let q = Progress { applied: position_of(entries[0]), machine: next };
                assert(indices_increase(rest)) by {
                    assert forall|i: int, j: int| 0 <= i < j < rest.len() implies (
                    #[trigger] rest[i]).index < (#[trigger] rest[j]).index by {
                        assert(rest[i] == entries[i + 1]);
                        assert(rest[j] == entries[j + 1]);
                    }
                }
                if rest.len() > 0 {
                    assert(rest[0] == entries[1]);
                    assert(entries[0].index < entries[1].index);
                    assert(rest.last() == entries.last());
                }
                lemma_applied_once_in_order::<S>(q, rest);
            },
            None => {},
        }
    }
}

/// Committed entries that do not lie beyond the last one applied are passed
/// over: delivering them again changes nothing.
pub proof fn lemma_redelivery_passed_over<S: AbstractStateMachine>(
    p: Progress<S::State>,
    entries: Seq<LogEntry>,
)
    requires
        forall|i: int| 0 <= i < entries.len() ==> (#[trigger] entries[i]).index <= p.applied.index,
    ensures
        replay::<S>(p, commits(entries)) == (Outcome { progress: p, exit: Ok(()) }),
    decreases entries.len(),
{
    let events = commits(entries);
    if entries.len() > 0 {
        let rest = entries.drop_first();
        assert(events[0] == EngineEvent::Committed(entries[0]));
        assert(events.drop_first() == commits(rest));
        assert forall|i: int| 0 <= i < rest.len() implies (#[trigger] rest[i]).index
            <= p.applied.index by {
            assert(rest[i] == entries[i + 1]);
        }
        lemma_redelivery_passed_over::<S>(p, rest);
    }
}

/// A node that installs a snapshot goes on exactly as the node that the
/// snapshot was taken of: whatever it had applied and whatever state it was
/// in, the events that follow lead to the same states, answers and end.
pub proof fn lemma_restored_behaves_alike<S: AbstractStateMachine>(
    taken_of: S::State,
    position: SnapshotMetadata,
    snapshot: Vec<u8>,
    restoring: Progress<S::State>,
    later: Seq<EngineEvent>,
)
    requires
        S::decode(snapshot@) == Some(taken_of),
    ensures
        replay::<S>(restoring, seq![EngineEvent::InstallSnapshot(position, snapshot)] + later)
            == replay::<S>(Progress { applied: position, machine: taken_of }, later),
{
    let events = seq![EngineEvent::InstallSnapshot(position, snapshot)] + later;
    assert(events[0] == EngineEvent::InstallSnapshot(position, snapshot));
    assert(events.drop_first() == later);
}

} // verus!
