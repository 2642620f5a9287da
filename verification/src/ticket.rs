//! The join ticket: what an existing member hands to a node that asks to
//! join, so that it can attach to the running cluster.

use vstd::prelude::*;
use crate::id_map::{text_map, IdMap};

verus! {

/// A join ticket as a mathematical value.
pub struct TicketView {
    /// The identifier reserved for the joining node.
    pub reserved_id: u64,
    /// The joining node's own address.
    pub self_address: Seq<char>,
    /// The address of the leader.
    pub leader_address: Seq<char>,
    /// The members of the cluster and their addresses.
    pub peer_table: Map<u64, Seq<char>>,
}

impl TicketView {
    /// A ticket is valid when the identifier it reserves is not yet that of
    /// a member.
    pub open spec fn valid(self) -> bool {
        !self.peer_table.contains_key(self.reserved_id)
    }
}

/// Why a ticket could not be made from what was given.
#[derive(Debug, Clone, Copy, PartialEq, Eq, Structural)]
pub enum TicketError {
    /// A field is absent.
    MissingField(TicketField),
    /// A field occurs more than once.
    DuplicateField(TicketField),
    /// A field holds a value of the wrong kind.
    WrongType(TicketField),
    /// An identifier occurs more than once in the peer table.
    DuplicatePeer,
    /// The reserved identifier is already that of a member.
    ReservedIdInPeers,
}

/// The fields of a ticket.
#[derive(Debug, Clone, Copy, PartialEq, Eq, Structural)]
pub enum TicketField {
    /// The identifier reserved for the joining node.
    ReservedId,
    /// The joining node's own address.
    SelfAddress,
    /// The address of the leader.
    LeaderAddress,
    /// The members of the cluster and their addresses.
    PeerTable,
}

/// A join ticket. It does not change once it is made.
#[derive(Debug, Clone, PartialEq, Eq)]
pub struct ClusterJoinTicket {
    reserved_id: u64,
    self_address: String,
    leader_address: String,
    peer_table: IdMap<String>,
}

impl View for ClusterJoinTicket {
    type V = TicketView;

    closed spec fn view(&self) -> TicketView {
        TicketView {
            reserved_id: self.reserved_id,
            self_address: self.self_address@,
            leader_address: self.leader_address@,
            peer_table: text_map(self.peer_table@),
        }
    }
}

impl ClusterJoinTicket {
    /// The invariant of a ticket: the peer table holds each identifier once,
    /// and not the reserved one.
    pub closed spec fn wf(&self) -> bool {
        &&& self.peer_table.wf()
        &&& !self.peer_table@.contains_key(self.reserved_id)
    }

    /// The peer table as stored.
    pub closed spec fn table(&self) -> IdMap<String> {
        self.peer_table
    }

    /// A well-formed ticket is valid, and its peer table is the one stored.
    pub proof fn lemma_wf(&self)
        requires
            self.wf(),
        ensures
            self@.valid(),
            self.table().wf(),
            self@.peer_table == text_map(self.table()@),
    {
    }

    /// A ticket of the parts given.
    ///
    /// Fails with `ReservedIdInPeers` exactly when `reserved_id` has an entry
    /// in `peer_table`.
    pub fn new(
        reserved_id: u64,
        self_address: String,
        leader_address: String,
        peer_table: IdMap<String>,
    ) -> (r: Result<Self, TicketError>)
        requires
            peer_table.wf(),
        ensures
            peer_table@.contains_key(reserved_id) ==> r == Err::<Self, TicketError>(
                TicketError::ReservedIdInPeers,
            ),
            !peer_table@.contains_key(reserved_id) ==> r is Ok,
            r matches Ok(t) ==> t.wf() && t.table() == peer_table && t@ == (TicketView {
                reserved_id,
                self_address: self_address@,
                leader_address: leader_address@,
                peer_table: text_map(peer_table@),
            }),
    {
        if peer_table.contains(reserved_id) {
            Err(TicketError::ReservedIdInPeers)
        } else {
            Ok(ClusterJoinTicket { reserved_id, self_address, leader_address, peer_table })
        }
    }

    /// The identifier reserved for the joining node.
    pub fn reserved_id(&self) -> (id: u64)
        ensures
            id == self@.reserved_id,
    {
        self.reserved_id
    }

    /// The joining node's own address.
    pub fn self_address(&self) -> (a: &String)
        ensures
            a@ == self@.self_address,
    {
        &self.self_address
    }

    /// The address of the leader.
    pub fn leader_address(&self) -> (a: &String)
        ensures
            a@ == self@.leader_address,
    {
        &self.leader_address
    }

    /// The members of the cluster and their addresses.
    pub fn peer_table(&self) -> (t: &IdMap<String>)
        ensures
            *t == self.table(),
    {
        &self.peer_table
    }
}

} // verus!
