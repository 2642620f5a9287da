//! How a new node attaches to a running cluster.
//!
//! A node that wants to join asks a member for a ticket, registers the
//! members that the ticket names, takes the identifier that the ticket
//! reserves, and only then starts to run. It goes through these stages once
//! and in this order; a ticket is used once. Asking for the ticket, and for
//! another one after a failure, is the caller's work.

use vstd::prelude::*;
use crate::address::{is_valid, is_valid_address};
use crate::bindings::raft_facade::{Lifecycle, NodeView, RaftFacade};
use crate::error::Error;
use crate::id_map::{
    as_map, index_of_key, keys_increasing, lemma_absent, lemma_entry_in_map, lemma_insert_new,
    text_map,
};
use crate::peer::PeerView;
use crate::recovery::SnapshotMetadata;
use crate::registry::PeerRegistry;
use crate::state_machine::AbstractStateMachine;
use crate::ticket::{ClusterJoinTicket, TicketView};

verus! {

/// The stages that a joining node goes through.
#[derive(Debug, Clone, Copy, PartialEq, Eq, Structural)]
pub enum JoinPhase {
    /// The node has no ticket.
    Unbootstrapped,
    /// The node holds a ticket and has not acted on it.
    HasTicket,
    /// The node has registered the members that the ticket names and has
    /// taken the identifier that it reserves.
    Registered,
    /// The node runs.
    Running,
}

/// What came back for a request to join.
#[derive(Debug, Clone, PartialEq, Eq)]
pub enum JoinReply {
    /// The ticket.
    Ticket(ClusterJoinTicket),
    /// The member asked does not lead the cluster; the address, if there is
    /// one, is that of the leader as far as it knows.
    NotLeader(Option<String>),
}

/// A joining node as a mathematical value.
pub struct JoinerView<C> {
    /// The stage reached.
    pub phase: JoinPhase,
    /// The ticket held, if any.
    pub ticket: Option<TicketView>,
    /// The peer registry.
    pub peers: Map<u64, PeerView<C>>,
}

impl<C> JoinerView<C> {
    /// The node's identifier: the one its ticket reserves, from the stage
    /// `Registered` on, and none before.
    pub open spec fn id(self) -> Option<u64> {
        match (self.phase, self.ticket) {
            (JoinPhase::Registered, Some(t)) => Some(t.reserved_id),
            (JoinPhase::Running, Some(t)) => Some(t.reserved_id),
            _ => None,
        }
    }
}

/// Whether every address in `table` is well formed.
pub open spec fn addresses_valid(table: Map<u64, Seq<char>>) -> bool {
    forall|id: u64| #[trigger] table.contains_key(id) ==> is_valid_address(table[id])
}

/// The registry that holds the members of `table`, none of them connected.
pub open spec fn seeded<C>(table: Map<u64, Seq<char>>) -> Map<u64, PeerView<C>> {
    Map::new(
        |id: u64| table.contains_key(id),
        |id: u64| PeerView { address: table[id], connection: None },
    )
}

/// A node on its way into a cluster. `C` is the type of a connection to a
/// peer.
pub struct Joiner<C> {
    phase: JoinPhase,
    ticket: Option<ClusterJoinTicket>,
    peers: PeerRegistry<C>,
}

impl<C> View for Joiner<C> {
    type V = JoinerView<C>;

    closed spec fn view(&self) -> JoinerView<C> {
        JoinerView {
            phase: self.phase,
            ticket: match self.ticket {
                Some(t) => Some(t@),
                None => None,
            },
            peers: self.peers@,
        }
    }
}

impl<C> Joiner<C> {
    /// The invariant of a joining node: it holds a ticket from the stage
    /// `HasTicket` on and none before, and its registry holds nobody before
    /// the stage `Registered`.
    pub closed spec fn wf(&self) -> bool {
        &&& self.peers.wf()
        &&& self.ticket matches Some(t) ==> t.wf()
        &&& (self.phase == JoinPhase::Unbootstrapped) == (self.ticket is None)
        &&& self.phase == JoinPhase::Unbootstrapped || self.phase == JoinPhase::HasTicket
            ==> self.peers@ == Map::<u64, PeerView<C>>::empty()
    }

    /// A node that has not asked to join yet.
    pub fn new() -> (j: Self)
        ensures
            j.wf(),
            j@ == (JoinerView::<C> {
                phase: JoinPhase::Unbootstrapped,
                ticket: None,
                peers: Map::empty(),
            }),
    {
        Joiner { phase: JoinPhase::Unbootstrapped, ticket: None, peers: PeerRegistry::new() }
    }

    /// The stage reached.
    pub fn phase(&self) -> (p: JoinPhase)
        ensures
            p == self@.phase,
    {
        self.phase
    }

    /// The node's identifier, once it has one.
    pub fn id(&self) -> (id: Option<u64>)
        requires
            self.wf(),
        ensures
            id == self@.id(),
    {
        match (self.phase, &self.ticket) {
            (JoinPhase::Registered, Some(t)) => Some(t.reserved_id()),
            (JoinPhase::Running, Some(t)) => Some(t.reserved_id()),
            _ => None,
        }
    }

    /// The peer registry.
    pub fn peers(&self) -> (p: &PeerRegistry<C>)
        ensures
            p@ == self@.peers,
            self.wf() ==> p.wf(),
    {
        &self.peers
    }

    /// Takes in what came back for the request to join; nothing, where no
    /// member answered.
    ///
    /// Fails with `InvalidState` when the node is past the stage
    /// `Unbootstrapped`, with `ClusterUnreachable` when no member answered,
    /// and with `NotLeader`, carrying the hint, when the member asked does
    /// not lead. The node then stays as it is. With a ticket the node keeps
    /// it and is in the stage `HasTicket`.
    pub fn accept(&mut self, reply: Option<JoinReply>) -> (r: Result<(), Error>)
        requires
            old(self).wf(),
            reply matches Some(JoinReply::Ticket(t)) ==> t.wf(),
        ensures
            final(self).wf(),
            old(self)@.phase != JoinPhase::Unbootstrapped ==> r == Err::<(), Error>(
                Error::InvalidState,
            ) && final(self)@ == old(self)@,
            old(self)@.phase == JoinPhase::Unbootstrapped ==> match reply {
                None => r == Err::<(), Error>(Error::ClusterUnreachable) && final(self)@ == old(self)@,
                Some(JoinReply::NotLeader(hint)) => r == Err::<(), Error>(Error::NotLeader(hint))
                    && final(self)@ == old(self)@,
                Some(JoinReply::Ticket(t)) => r is Ok && final(self)@ == (JoinerView {
                    phase: JoinPhase::HasTicket,
                    ticket: Some(t@),
                    ..old(self)@
                }),
            },
    {
        match self.phase {
            JoinPhase::Unbootstrapped => {},
            _ => {
                return Err(Error::InvalidState);
            },
        }
        match reply {
            None => Err(Error::ClusterUnreachable),
            Some(JoinReply::NotLeader(hint)) => Err(Error::NotLeader(hint)),
            Some(JoinReply::Ticket(t)) => {
                self.ticket = Some(t);
                self.phase = JoinPhase::HasTicket;
                Ok(())
            },
        }
    }

    /// Registers the members that the ticket names, and takes the identifier
    /// that it reserves.
    ///
    /// Fails with `InvalidState` unless the node is in the stage
    /// `HasTicket`, and with `InvalidAddress` when an address in the ticket's
    /// peer table is malformed. The node then stays as it is. Otherwise the
    /// registry holds exactly the members of the peer table, none of them
    /// connected, and the node is in the stage `Registered`.
    pub fn seed_registry(&mut self) -> (r: Result<(), Error>)
        requires
            old(self).wf(),
        ensures
            final(self).wf(),
            old(self)@.phase != JoinPhase::HasTicket ==> r == Err::<(), Error>(Error::InvalidState)
                && final(self)@ == old(self)@,
            old(self)@.phase == JoinPhase::HasTicket ==> ({
                let table = old(self)@.ticket->0.peer_table;
                if addresses_valid(table) {
                    r is Ok && final(self)@ == JoinerView {
                        phase: JoinPhase::Registered,
                        peers: seeded(table),
                        ..old(self)@
                    }
                } else {
                    r == Err::<(), Error>(Error::InvalidAddress) && final(self)@ == old(self)@
                }
            }),
    {
        match self.phase {
            JoinPhase::HasTicket => {},
            _ => {
                return Err(Error::InvalidState);
            },
        }
        let ticket: &ClusterJoinTicket = match &self.ticket {
            Some(t) => t,
            None => {
                return Err(Error::InvalidState);
            },
        };
        let table = ticket.peer_table();
        let ghost s = table.seq();
        let ghost goal = ticket@.peer_table;
        proof {
            ticket.lemma_wf();
            assert(goal == text_map(as_map(s)));
        }
        let n: usize = table.len();
        let mut fresh: PeerRegistry<C> = PeerRegistry::new();
        let mut i: usize = 0;
        assert(fresh@ =~= seeded::<C>(text_map(as_map(s.subrange(0, 0)))));
        while i < n
            invariant
                self.wf(),
                self@ == old(self)@,
                self@.phase == JoinPhase::HasTicket,
                self@.ticket matches Some(t) && t.peer_table == goal,
                s == table.seq(),
                keys_increasing(s),
                goal == text_map(as_map(s)),
                n == s.len(),
                i <= n,
                fresh.wf(),
                fresh@ == seeded::<C>(text_map(as_map(s.subrange(0, i as int)))),
                forall|j: int| 0 <= j < i ==> is_valid_address((#[trigger] s[j]).1@),
            decreases n - i,
        {
            let id: u64 = table.key_at(i);
            let address: &String = table.value_at(i);
            let ghost before = s.subrange(0, i as int);
            proof {
                assert(s.subrange(0, i + 1) == before.insert(i as int, s[i as int]));
                assert forall|j: int| 0 <= j < i implies (#[trigger] before[j]).0 < id by {
                    assert(before[j] == s[j]);
                    assert(s[j].0 < s[i as int].0);
                }
                lemma_insert_new(before, i as int, id, s[i as int].1);
                lemma_absent(before, i as int, id);
            }
            match fresh.register(id, address.as_str()) {
                Ok(_) => {},
                Err(_) => {
                    proof {
                        lemma_entry_in_map(s, i as int);
                        assert(goal.contains_key(id));
                        assert(goal[id] == s[i as int].1@);
                    }
                    return Err(Error::InvalidAddress);
                },
            }
            assert(fresh@ =~= seeded::<C>(text_map(as_map(s.subrange(0, i + 1)))));
            i = i + 1;
        }
        proof {
            assert(s.subrange(0, n as int) == s);
            assert forall|id: u64| #[trigger] goal.contains_key(id) implies is_valid_address(
                goal[id],
            ) by {
                let j = index_of_key(s, id);
                lemma_entry_in_map(s, j);
            }
        }
        self.peers = fresh;
        self.phase = JoinPhase::Registered;
        Ok(())
    }

    /// Builds the node under the identifier and at the address of the
    /// ticket, with the members registered, and starts it.
    ///
    /// `engine` is what constructing the consensus engine gave, as for
    /// `RaftFacade::build`. Fails with `InvalidState` unless the node is in
    /// the stage `Registered`, else with `InvalidAddress` when the ticket's
    /// address for this node is malformed, else with `EngineInitError` when
    /// there is no engine. The joining node then stays as it is. Otherwise
    /// the node that comes back owns the registry and is in the stage
    /// `Running`, and so is the joining node, which has nothing left to do.
    pub fn launch<S: AbstractStateMachine, E>(&mut self, fsm: S, engine: Option<E>) -> (r: Result<
        RaftFacade<S, E, C>,
        Error,
    >)
        requires
            old(self).wf(),
        ensures
            final(self).wf(),
            old(self)@.phase != JoinPhase::Registered ==> r == Err::<RaftFacade<S, E, C>, Error>(
                Error::InvalidState,
            ) && final(self)@ == old(self)@,
            old(self)@.phase == JoinPhase::Registered ==> ({
                let ticket = old(self)@.ticket->0;
                if !is_valid_address(ticket.self_address) {
                    r == Err::<RaftFacade<S, E, C>, Error>(Error::InvalidAddress) && final(self)@
                        == old(self)@
                } else if engine is None {
                    r == Err::<RaftFacade<S, E, C>, Error>(Error::EngineInitError) && final(self)@
                        == old(self)@
                } else {
                    &&& final(self)@ == JoinerView {
                        phase: JoinPhase::Running,
                        peers: Map::empty(),
                        ..old(self)@
                    }
                    &&& r matches Ok(node) && node.wf() && node.engine_handle() == engine->0
                        && node@ == NodeView::<S::State, C> {
                        id: ticket.reserved_id,
                        address: ticket.self_address,
                        lifecycle: Lifecycle::Running,
                        applied: SnapshotMetadata::empty(),
                        machine: fsm.state(),
                        peers: old(self)@.peers,
                        reserved: 0,
                    }
                }
            }),
    {
        match self.phase {
            JoinPhase::Registered => {},
            _ => {
                return Err(Error::InvalidState);
            },
        }
        let (id, address): (u64, String) = match &self.ticket {
            Some(t) => (t.reserved_id(), t.self_address().clone()),
            None => {
                return Err(Error::InvalidState);
            },
        };
        if !is_valid(address.as_str()) {
            return Err(Error::InvalidAddress);
        }
        if engine.is_none() {
            return Err(Error::EngineInitError);
        }
        let mut peers: PeerRegistry<C> = PeerRegistry::new();
        core::mem::swap(&mut self.peers, &mut peers);
        self.phase = JoinPhase::Running;
        match RaftFacade::build(id, address.as_str(), fsm, peers, engine) {
            Ok(mut node) => match node.start() {
                Ok(_) => Ok(node),
                Err(e) => Err(e),
            },
            Err(e) => Err(e),
        }
    }
}

} // verus!
