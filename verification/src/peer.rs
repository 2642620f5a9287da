//! A member of the cluster as seen from one node: its identifier, its
//! address, and the connection to it once one has been opened.

use vstd::prelude::*;
use vstd::string::StringExecFns;
use crate::address::{is_valid, is_valid_address};
use crate::error::Error;

verus! {

/// What a peer is, apart from how it is stored.
pub struct PeerView<C> {
    /// The address, as a sequence of characters.
    pub address: Seq<char>,
    /// The open connection, if there is one.
    pub connection: Option<C>,
}

/// A cluster member and the connection to it. `C` is the type of an open
/// connection; the library stores it and hands it out, and never looks inside.
#[derive(Debug, Clone, PartialEq, Eq)]
pub struct Peer<C> {
    /// The member's identifier.
    pub id: u64,
    /// The member's address, in `host:port` form.
    pub addr: String,
    /// The open connection; none until the first one is asked for.
    pub client: Option<C>,
}

impl<C> View for Peer<C> {
    type V = PeerView<C>;

    open spec fn view(&self) -> PeerView<C> {
        PeerView { address: self.addr@, connection: self.client }
    }
}

impl<C> Peer<C> {
    /// A peer is well formed when its address is.
    pub open spec fn wf(&self) -> bool {
        is_valid_address(self.addr@)
    }

    /// A peer with the identifier and address given, not yet connected.
    ///
    /// Fails with `InvalidAddress` exactly when the address is malformed.
    pub fn new(id: u64, addr: &str) -> (r: Result<Self, Error>)
        ensures
            is_valid_address(addr@) ==> r is Ok,
            !is_valid_address(addr@) ==> r == Err::<Self, Error>(Error::InvalidAddress),
            r matches Ok(p) ==> p.wf() && p.id == id && p@ == (PeerView::<C> {
                address: addr@,
                connection: None,
            }),
    {
        if is_valid(addr) {
            Ok(Peer { id, addr: String::from_str(addr), client: None })
        } else {
            Err(Error::InvalidAddress)
        }
    }

    /// Records how an attempt to open a connection to this peer ended.
    ///
    /// With a connection the peer keeps it; without one the call fails with
    /// `PeerUnreachable` and the peer stays as it was.
    pub fn connect(&mut self, attempt: Option<C>) -> (r: Result<(), Error>)
        ensures
            final(self).id == old(self).id,
            final(self).addr == old(self).addr,
            attempt matches Some(c) ==> r is Ok && final(self).client == Some(c),
            attempt is None ==> r == Err::<(), Error>(Error::PeerUnreachable) && final(self).client
                == old(self).client,
    {
        match attempt {
            Some(c) => {
                self.client = Some(c);
                Ok(())
            },
            None => Err(Error::PeerUnreachable),
        }
    }

    /// Whether a connection to this peer is open.
    pub fn is_connected(&self) -> (r: bool)
        ensures
            r == self.client.is_some(),
    {
        self.client.is_some()
    }
}

} // verus!
