//! The failures that the membership and lifecycle layer reports.

use vstd::prelude::*;

verus! {

/// A failure reported to the caller of an operation of this layer.
///
/// Transient failures come back to the immediate caller, which decides
/// whether to try again; nothing here retries on its own. Fatal failures end
/// the run of a node and are handed on as they are.
#[derive(Debug, Clone, PartialEq, Eq)]
pub enum Error {
    /// A peer's or the node's own address is malformed.
    InvalidAddress,
    /// No connection to the peer could be had: it is unknown, or the attempt
    /// to reach it failed or took too long.
    PeerUnreachable,
    /// A join request reached a member that is not the leader; the hint, if
    /// there is one, is the address of the leader as that member knows it.
    NotLeader(Option<String>),
    /// No member answered a join request.
    ClusterUnreachable,
    /// The consensus engine could not be constructed.
    EngineInitError,
    /// The consensus engine ended with the error described.
    FatalError(String),
    /// The state machine rejected the committed entry with the index given.
    ApplyError(u64),
    /// The operation does not fit the stage of its life that the node is in.
    InvalidState,
}

} // verus!
