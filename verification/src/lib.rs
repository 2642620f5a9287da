//! Membership and lifecycle layer of a replicated-state-machine node.

pub mod address;
pub mod bindings;
pub mod cli;
pub mod error;
pub mod id_map;
pub mod join;
pub mod peer;
pub mod recovery;
pub mod registry;
pub mod state_machine;
pub mod ticket;
