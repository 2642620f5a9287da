//! The peer registry: the node-local table of known members, their addresses
//! and the connections opened to them.
//!
//! A connection is opened only when one is first asked for. Opening it is
//! the caller's work: `connection_for` says whether a stored connection can be
//! used or which address to reach, and `connected` takes in how the attempt
//! ended. Nothing is tried a second time here.

use vstd::prelude::*;
use vstd::string::StringExecFns;
use crate::address::is_valid_address;
use crate::error::Error;
use crate::id_map::{
    as_map, index_of_key, keys_increasing, lemma_entry_in_map, lemma_insert_new, text_map, IdMap,
};
use crate::peer::{Peer, PeerView};

verus! {

/// What `connection_for` found for a registered peer.
#[derive(Debug, PartialEq, Eq)]
pub enum ConnectionStep<'a, C> {
    /// A connection is stored and can be used as it is.
    Ready(&'a C),
    /// No connection is stored; one has to be opened to this address.
    Dial(String),
}

/// What `connection_for` finds, as a mathematical value.
pub enum StepView<C> {
    /// This connection is stored.
    Ready(C),
    /// No connection is stored; one has to be opened to this address.
    Dial(Seq<char>),
}

impl<'a, C> View for ConnectionStep<'a, C> {
    type V = StepView<C>;

    open spec fn view(&self) -> StepView<C> {
        match self {
            ConnectionStep::Ready(c) => StepView::Ready(**c),
            ConnectionStep::Dial(a) => StepView::Dial(a@),
        }
    }
}

/// How a connection to `id` is to be had from the registry `m`: nothing
/// where `id` is not registered, the stored connection where there is one,
/// and else the address to reach.
pub open spec fn step_for<C>(m: Map<u64, PeerView<C>>, id: u64) -> Option<StepView<C>> {
    if !m.contains_key(id) {
        None
    } else {
        match m[id].connection {
            Some(c) => Some(StepView::Ready(c)),
            None => Some(StepView::Dial(m[id].address)),
        }
    }
}

/// The table of known peers, keyed by identifier.
#[derive(Debug, Clone, PartialEq, Eq)]
pub struct PeerRegistry<C> {
    peers: IdMap<Peer<C>>,
}

impl<C> View for PeerRegistry<C> {
    type V = Map<u64, PeerView<C>>;

    /// The registry as a mapping from identifier to address and connection.
    open spec fn view(&self) -> Map<u64, PeerView<C>> {
        Map::new(|id: u64| self.peers().contains_key(id), |id: u64| self.peers()[id]@)
    }
}

/// The addresses of the peers of a registry, by identifier.
pub open spec fn address_map<C>(m: Map<u64, PeerView<C>>) -> Map<u64, Seq<char>> {
    Map::new(|id: u64| m.contains_key(id), |id: u64| m[id].address)
}

/// The entry that `register` leaves for an identifier: the address given, and
/// the connection stored before only if it was opened to that same address.
pub open spec fn registered<C>(before: Map<u64, PeerView<C>>, id: u64, address: Seq<char>)
    -> PeerView<C> {
    PeerView {
        address,
        connection: if before.contains_key(id) && before[id].address == address {
            before[id].connection
        } else {
            None
        },
    }
}

/// The registry `before` without the connection stored for `id`.
pub open spec fn invalidated<C>(before: Map<u64, PeerView<C>>, id: u64) -> Map<u64, PeerView<C>> {
    if before.contains_key(id) {
        before.insert(id, PeerView { address: before[id].address, connection: None })
    } else {
        before
    }
}

/// Whether the outcome of an attempt to reach `address` can be stored for
/// `id`: the peer is still registered at that address, and the attempt
/// brought a connection.
pub open spec fn attempt_accepted<C>(
    before: Map<u64, PeerView<C>>,
    id: u64,
    address: Seq<char>,
    attempt: Option<C>,
) -> bool {
    &&& before.contains_key(id)
    &&& before[id].address == address
    &&& attempt is Some
}

impl<C> PeerRegistry<C> {
    /// The peers as stored, by identifier.
    pub closed spec fn peers(&self) -> Map<u64, Peer<C>> {
        self.peers@
    }

    /// The peers in increasing order of identifier.
    pub closed spec fn entries(&self) -> Seq<(u64, Peer<C>)> {
        self.peers.seq()
    }

    /// The invariant of the registry: an identifier has at most one entry, the
    /// entry found under an identifier carries that identifier, and every
    /// address is well formed.
    pub closed spec fn wf(&self) -> bool {
        &&& self.peers.wf()
        &&& forall|id: u64| #[trigger]
            self.peers@.contains_key(id) ==> self.peers@[id].id == id && self.peers@[id].wf()
    }

    /// A registry never holds two entries with the same identifier.
    pub proof fn lemma_one_entry_per_id(&self, i: int, j: int)
        requires
            self.wf(),
            0 <= i < self.entries().len(),
            0 <= j < self.entries().len(),
            self.entries()[i].0 == self.entries()[j].0,
        ensures
            i == j,
    {
        let s = self.entries();
        if i < j {
            assert(s[i].0 < s[j].0);
        } else if j < i {
            assert(s[j].0 < s[i].0);
        }
    }

    /// Every address in a registry is well formed, and every peer is found
    /// under its own identifier.
    pub proof fn lemma_addresses_valid(&self)
        requires
            self.wf(),
        ensures
            forall|id: u64| #[trigger]
                self@.contains_key(id) ==> is_valid_address(self@[id].address) && self.peers()[id].id
                    == id,
    {
    }

    /// A registry without peers.
    pub fn new() -> (r: Self)
        ensures
            r.wf(),
            r@ == Map::<u64, PeerView<C>>::empty(),
    {
        let r = PeerRegistry { peers: IdMap::new() };
        assert(r@ =~= Map::<u64, PeerView<C>>::empty());
        r
    }

    /// The number of registered peers.
    pub fn len(&self) -> (n: usize)
        ensures
            n == self.entries().len(),
            self.wf() ==> self@.dom().finite() && n == self@.dom().len(),
    {
        proof {
            if self.wf() {
                assert(self@.dom() =~= self.peers@.dom());
            }
        }
        self.peers.len()
    }

    /// Whether `id` is registered.
    pub fn contains(&self, id: u64) -> (r: bool)
        requires
            self.wf(),
        ensures
            r == self@.contains_key(id),
    {
        self.peers.contains(id)
    }

    /// Whether a connection to `id` is stored.
    pub fn is_connected(&self, id: u64) -> (r: bool)
        requires
            self.wf(),
        ensures
            r == (self@.contains_key(id) && self@[id].connection is Some),
    {
        match self.peers.get(id) {
            Some(p) => p.is_connected(),
            None => false,
        }
    }

    /// The address registered for `id`, if it is registered.
    pub fn address_of(&self, id: u64) -> (r: Option<String>)
        requires
            self.wf(),
        ensures
            r.is_some() == self@.contains_key(id),
            r matches Some(a) ==> a@ == self@[id].address,
    {
        match self.peers.get(id) {
            Some(p) => Some(p.addr.clone()),
            None => None,
        }
    }

    /// Registers `id` at `address`.
    ///
    /// Fails with `InvalidAddress` exactly when the address is malformed, and
    /// then changes nothing. Otherwise `id` is afterwards registered at
    /// `address`, once. A connection stored for `id` is kept only if it was
    /// opened to this same address; with another address it is dropped, and
    /// the next `connection_for` asks for a new one.
    pub fn register(&mut self, id: u64, address: &str) -> (r: Result<(), Error>)
        requires
            old(self).wf(),
        ensures
            final(self).wf(),
            is_valid_address(address@) ==> r is Ok && final(self)@ == old(self)@.insert(
                id,
                registered(old(self)@, id, address@),
            ),
            !is_valid_address(address@) ==> r == Err::<(), Error>(Error::InvalidAddress) && final(self)@ == old(self)@,
    {
        let peer: Peer<C> = match Peer::new(id, address) {
            Ok(p) => p,
            Err(e) => {
                return Err(e);
            },
        };
        let unchanged = match self.peers.get(id) {
            Some(p) => p.addr == peer.addr,
            None => false,
        };
        if unchanged {
            assert(self@ =~= self@.insert(id, registered(self@, id, address@)));
        } else {
            self.peers.insert(id, peer);
            assert(final(self)@ =~= old(self)@.insert(id, registered(old(self)@, id, address@)));
        }
        Ok(())
    }

    /// Drops the entry of `id` and any connection stored for it. Says whether
    /// there was such an entry.
    pub fn remove(&mut self, id: u64) -> (r: bool)
        requires
            old(self).wf(),
        ensures
            final(self).wf(),
            final(self)@ == old(self)@.remove(id),
            r == old(self)@.contains_key(id),
    {
        let previous = self.peers.remove(id);
        assert(final(self)@ =~= old(self)@.remove(id));
        previous.is_some()
    }

    /// Says how to get a connection to `id`.
    ///
    /// Fails with `PeerUnreachable` when `id` is not registered. Otherwise
    /// hands out the stored connection if there is one, and the address to
    /// reach if there is none. The registry is not changed.
    pub fn connection_for(&self, id: u64) -> (r: Result<ConnectionStep<'_, C>, Error>)
        requires
            self.wf(),
        ensures
            match step_for(self@, id) {
                None => r == Err::<ConnectionStep<'_, C>, Error>(Error::PeerUnreachable),
                Some(step) => r matches Ok(found) && found@ == step,
            },
    {
        match self.peers.get(id) {
            None => Err(Error::PeerUnreachable),
            Some(p) => match &p.client {
                Some(c) => Ok(ConnectionStep::Ready(c)),
                None => Ok(ConnectionStep::Dial(p.addr.clone())),
            },
        }
    }

    /// Takes in how an attempt to open a connection to `id` at `address`
    /// ended.
    ///
    /// The connection is stored if the attempt brought one and `id` is still
    /// registered at `address`. In every other case the call fails with
    /// `PeerUnreachable`, nothing is stored, and what the attempt brought is
    /// dropped: a connection to an address that is no longer the registered
    /// one is never used.
    pub fn connected(&mut self, id: u64, address: &str, attempt: Option<C>) -> (r: Result<
        (),
        Error,
    >)
        requires
            old(self).wf(),
        ensures
            final(self).wf(),
            attempt_accepted(old(self)@, id, address@, attempt) ==> r is Ok && final(self)@ == old(self)@.insert(id, PeerView { address: address@, connection: attempt }),
            !attempt_accepted(old(self)@, id, address@, attempt) ==> r == Err::<(), Error>(
                Error::PeerUnreachable,
            ) && final(self)@ == old(self)@,
    {
        let owned = String::from_str(address);
        let current = match self.peers.get(id) {
            Some(p) => p.addr == owned,
            None => false,
        };
        if !current {
            return Err(Error::PeerUnreachable);
        }
        match self.peers.remove(id) {
            None => Err(Error::PeerUnreachable),
            Some(p) => {
                let mut peer = p;
                let outcome = peer.connect(attempt);
                self.peers.insert(id, peer);
                proof {
                    if attempt is Some {
                        assert(final(self)@ =~= old(self)@.insert(
                            id,
                            PeerView { address: address@, connection: attempt },
                        ));
                    } else {
                        assert(final(self)@ =~= old(self)@);
                    }
                }
                outcome
            },
        }
    }

    /// Drops the connection stored for `id`, if any, so that the next
    /// `connection_for` asks for a new one. For a connection that its user
    /// found broken.
    pub fn invalidate(&mut self, id: u64)
        requires
            old(self).wf(),
        ensures
            final(self).wf(),
            final(self)@ == invalidated(old(self)@, id),
    {
        match self.peers.remove(id) {
            None => {
                assert(final(self)@ =~= old(self)@);
            },
            Some(p) => {
                self.peers.insert(id, Peer { id, addr: p.addr, client: None });
                assert(final(self)@ =~= invalidated(old(self)@, id));
            },
        }
    }

    /// The greatest identifier registered, if any is.
    pub fn highest_id(&self) -> (r: Option<u64>)
        requires
            self.wf(),
        ensures
            r is None ==> self@ == Map::<u64, PeerView<C>>::empty(),
            r matches Some(top) ==> self@.contains_key(top) && forall|id: u64| #[trigger]
                self@.contains_key(id) ==> id <= top,
    {
        let n: usize = self.peers.len();
        if n == 0 {
            assert(self@ =~= Map::<u64, PeerView<C>>::empty());
            None
        } else {
            let top: u64 = self.peers.key_at(n - 1);
            proof {
                let s = self.peers.seq();
                lemma_entry_in_map(s, n - 1);
                assert forall|id: u64| #[trigger] self@.contains_key(id) implies id <= top by {
                    let i = index_of_key(s, id);
                    if i < n - 1 {
                        assert(s[i].0 < s[n - 1].0);
                    }
                }
            }
            Some(top)
        }
    }

    /// The addresses of all registered peers, by identifier.
    pub fn addresses(&self) -> (r: IdMap<String>)
        requires
            self.wf(),
        ensures
            r.wf(),
            text_map(r@) == address_map(self@),
    {
        let mut out: IdMap<String> = IdMap::new();
        let n: usize = self.peers.len();
        let ghost s = self.peers.seq();
        let mut i: usize = 0;
        while i < n
            invariant
                self.wf(),
                s == self.peers.seq(),
                n == s.len(),
                i <= n,
                out.wf(),
                out@.dom() == as_map(s.subrange(0, i as int)).dom(),
                forall|id: u64| #[trigger]
                    out@.contains_key(id) ==> out@[id]@ == as_map(s.subrange(0, i as int))[id].addr@,
            decreases n - i,
        {
            let id: u64 = self.peers.key_at(i);
            let address = self.peers.value_at(i).addr.clone();
            proof {
                let before = s.subrange(0, i as int);
                let after = s.subrange(0, i + 1);
                assert(after == before.insert(i as int, s[i as int]));
                assert(keys_increasing(before));
                assert forall|j: int| 0 <= j < i implies (#[trigger] before[j]).0 < id by {
                    assert(before[j] == s[j]);
                    assert(s[j].0 < s[i as int].0);
                }
                lemma_insert_new(before, i as int, id, s[i as int].1);
            }
            out.insert(id, address);
            i = i + 1;
        }
        proof {
            assert(s.subrange(0, n as int) == s);
            assert(out@.dom() =~= self@.dom());
            assert(text_map(out@) =~= address_map(self@));
        }
        out
    }
}

/// Once a connection to a peer is stored, `connection_for` hands out that
/// connection, and being read-only it does so again and again, without
/// anybody reaching for the address anew. Registering the peer once more at
/// the address it has changes nothing.
pub proof fn lemma_connection_kept<C>(m: Map<u64, PeerView<C>>, id: u64, address: Seq<char>, c: C)
    requires
        m.contains_key(id),
        m[id].address == address,
    ensures
        ({
            let stored = m.insert(id, PeerView { address, connection: Some(c) });
            &&& step_for(stored, id) == Some(StepView::Ready(c))
            &&& stored.insert(id, registered(stored, id, address)) == stored
        }),
{
    let stored = m.insert(id, PeerView { address, connection: Some(c) });
    assert(stored.insert(id, registered(stored, id, address)) =~= stored);
}

/// Registering a peer at another address than the one it has drops the
/// connection stored for it: the next `connection_for` asks for one to the
/// new address.
pub proof fn lemma_new_address_asks_again<C>(m: Map<u64, PeerView<C>>, id: u64, address: Seq<char>)
    requires
        m.contains_key(id),
        m[id].address != address,
    ensures
        registered(m, id, address).connection is None,
        step_for(m.insert(id, registered(m, id, address)), id) == Some(
            StepView::<C>::Dial(address),
        ),
{
}

} // verus!
