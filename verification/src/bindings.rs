//! The forms in which tickets and nodes are handed to an embedding program.

pub mod cluster_join_ticket;
pub mod raft_facade;
