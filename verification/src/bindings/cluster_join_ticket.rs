//! The join ticket as it crosses the boundary to an embedding program: made
//! from a registry of peers, and turned into and read back from a dictionary
//! of plain values.

use vstd::prelude::*;
use vstd::string::StringExecFns;
use crate::id_map::{
    as_map, distinct_keys, has_key, index_of_key, keys_increasing, lemma_entry_in_map,
    lemma_increasing_distinct, lemma_increasing_unique, lemma_push_new, text_map, IdMap,
};
use crate::registry::{address_map, PeerRegistry};
use crate::ticket::{ClusterJoinTicket, TicketError, TicketField, TicketView};

verus! {

/// A value in a dictionary.
#[derive(Debug, Clone, PartialEq, Eq)]
pub enum DictValue {
    /// A whole number.
    Int(u64),
    /// A piece of text.
    Text(String),
    /// A nested dictionary from identifiers to text, one pair per entry.
    Table(Vec<(u64, String)>),
}

/// A dictionary value as a mathematical value.
pub enum DictValueView {
    /// A whole number.
    Int(u64),
    /// A piece of text.
    Text(Seq<char>),
    /// A nested dictionary from identifiers to text.
    Table(Seq<(u64, Seq<char>)>),
}

/// The pairs of `t` with each text taken as a sequence of characters.
pub open spec fn table_view(t: Seq<(u64, String)>) -> Seq<(u64, Seq<char>)> {
    Seq::new(t.len(), |i: int| (t[i].0, t[i].1@))
}

impl View for DictValue {
    type V = DictValueView;

    open spec fn view(&self) -> DictValueView {
        match self {
            DictValue::Int(n) => DictValueView::Int(*n),
            DictValue::Text(s) => DictValueView::Text(s@),
            DictValue::Table(t) => DictValueView::Table(table_view(t@)),
        }
    }
}

/// A dictionary: named values, in the order in which they were written.
#[derive(Debug, Clone, PartialEq, Eq)]
pub struct Dict {
    /// The names and their values.
    pub entries: Vec<(String, DictValue)>,
}

impl View for Dict {
    type V = Seq<(Seq<char>, DictValueView)>;

    open spec fn view(&self) -> Seq<(Seq<char>, DictValueView)> {
        Seq::new(self.entries@.len(), |i: int| (self.entries@[i].0@, self.entries@[i].1@))
    }
}

/// The name under which a field of the ticket stands in a dictionary.
pub open spec fn field_name(f: TicketField) -> Seq<char> {
    match f {
        TicketField::ReservedId => "reserved_id"@,
        TicketField::SelfAddress => "self_address"@,
        TicketField::LeaderAddress => "leader_address"@,
        TicketField::PeerTable => "peer_table"@,
    }
}

/// The four field names differ from one another.
pub proof fn lemma_field_names_differ(f: TicketField, g: TicketField)
    requires
        f != g,
    ensures
        field_name(f) != field_name(g),
{
    reveal_strlit("reserved_id");
    reveal_strlit("self_address");
    reveal_strlit("leader_address");
    reveal_strlit("peer_table");
    assert(field_name(TicketField::ReservedId).len() == 11);
    assert(field_name(TicketField::SelfAddress).len() == 12);
    assert(field_name(TicketField::LeaderAddress).len() == 14);
    assert(field_name(TicketField::PeerTable).len() == 10);
}

/// The name under which a field of the ticket stands in a dictionary.
pub fn field_key(f: TicketField) -> (name: &'static str)
    ensures
        name@ == field_name(f),
{
    match f {
        TicketField::ReservedId => "reserved_id",
        TicketField::SelfAddress => "self_address",
        TicketField::LeaderAddress => "leader_address",
        TicketField::PeerTable => "peer_table",
    }
}

/// Whether the entry of `d` at position `i` has the name `name`.
pub open spec fn occurs_at(d: Seq<(Seq<char>, DictValueView)>, name: Seq<char>, i: int) -> bool {
    0 <= i < d.len() && d[i].0 == name
}

/// Where a name stands in a dictionary.
pub enum Lookup {
    /// Nowhere.
    Missing,
    /// At more than one position.
    Duplicate,
    /// At this position and no other.
    At(int),
}

/// Where `name` stands in `d`.
pub open spec fn lookup(d: Seq<(Seq<char>, DictValueView)>, name: Seq<char>) -> Lookup {
    if !(exists|i: int| occurs_at(d, name, i)) {
        Lookup::Missing
    } else if exists|i: int, j: int| i != j && occurs_at(d, name, i) && occurs_at(d, name, j) {
        Lookup::Duplicate
    } else {
        Lookup::At(choose|i: int| occurs_at(d, name, i))
    }
}

/// The value that `d` holds for the field `f`, if it holds exactly one.
pub open spec fn field_value(d: Seq<(Seq<char>, DictValueView)>, f: TicketField) -> Result<
    DictValueView,
    TicketError,
> {
    match lookup(d, field_name(f)) {
        Lookup::Missing => Err(TicketError::MissingField(f)),
        Lookup::Duplicate => Err(TicketError::DuplicateField(f)),
        Lookup::At(i) => Ok(d[i].1),
    }
}

/// The number that `d` holds for the field `f`.
pub open spec fn number_field(d: Seq<(Seq<char>, DictValueView)>, f: TicketField) -> Result<
    u64,
    TicketError,
> {
    match field_value(d, f) {
        Err(e) => Err(e),
        Ok(DictValueView::Int(n)) => Ok(n),
        Ok(_) => Err(TicketError::WrongType(f)),
    }
}

/// The text that `d` holds for the field `f`.
pub open spec fn text_field(d: Seq<(Seq<char>, DictValueView)>, f: TicketField) -> Result<
    Seq<char>,
    TicketError,
> {
    match field_value(d, f) {
        Err(e) => Err(e),
        Ok(DictValueView::Text(s)) => Ok(s),
        Ok(_) => Err(TicketError::WrongType(f)),
    }
}

/// The table that `d` holds for the field `f`.
pub open spec fn table_field(d: Seq<(Seq<char>, DictValueView)>, f: TicketField) -> Result<
    Seq<(u64, Seq<char>)>,
    TicketError,
> {
    match field_value(d, f) {
        Err(e) => Err(e),
        Ok(DictValueView::Table(t)) => Ok(t),
        Ok(_) => Err(TicketError::WrongType(f)),
    }
}

/// The ticket that a dictionary describes, or why it describes none.
///
/// The four fields are looked for in the order reserved identifier, own
/// address, leader address, peer table; the first that is absent, occurs
/// twice or holds a value of the wrong kind decides the error. Names that are
/// not fields of a ticket are passed over. The peer table may list its
/// entries in any order, each identifier once, and not the reserved one.
pub open spec fn decode(d: Seq<(Seq<char>, DictValueView)>) -> Result<TicketView, TicketError> {
    match number_field(d, TicketField::ReservedId) {
        Err(e) => Err(e),
        Ok(reserved_id) => match text_field(d, TicketField::SelfAddress) {
            Err(e) => Err(e),
            Ok(self_address) => match text_field(d, TicketField::LeaderAddress) {
                Err(e) => Err(e),
                Ok(leader_address) => match table_field(d, TicketField::PeerTable) {
                    Err(e) => Err(e),
                    Ok(table) => if !distinct_keys(table) {
                        Err(TicketError::DuplicatePeer)
                    } else if has_key(table, reserved_id) {
                        Err(TicketError::ReservedIdInPeers)
                    } else {
                        Ok(
                            TicketView {
                                reserved_id,
                                self_address,
                                leader_address,
                                peer_table: as_map(table),
                            },
                        )
                    },
                },
            },
        },
    }
}

/// Whether `d` is the dictionary written for the ticket `t`: the four fields
/// in their order, the peer table in increasing order of identifier.
pub open spec fn is_encoding(d: Seq<(Seq<char>, DictValueView)>, t: TicketView) -> bool {
    &&& d.len() == 4
    &&& d[0] == (field_name(TicketField::ReservedId), DictValueView::Int(t.reserved_id))
    &&& d[1] == (field_name(TicketField::SelfAddress), DictValueView::Text(t.self_address))
    &&& d[2] == (field_name(TicketField::LeaderAddress), DictValueView::Text(t.leader_address))
    &&& d[3].0 == field_name(TicketField::PeerTable)
    &&& d[3].1 matches DictValueView::Table(table) && keys_increasing(table) && as_map(table)
        == t.peer_table
}

/// Taking each text as a sequence of characters changes neither the order of
/// a table nor the mapping it describes.
pub proof fn lemma_table_view(s: Seq<(u64, String)>)
    requires
        keys_increasing(s),
    ensures
        keys_increasing(table_view(s)),
        as_map(table_view(s)) == text_map(as_map(s)),
{
    let t = table_view(s);
    assert(keys_increasing(t)) by {
        assert forall|i: int, j: int| 0 <= i < j < t.len() implies (#[trigger] t[i]).0 < (
        #[trigger] t[j]).0 by {
            assert(s[i].0 < s[j].0);
        }
    }
    assert forall|k: u64| has_key(t, k) <==> has_key(s, k) by {
        if has_key(t, k) {
            let i = index_of_key(t, k);
            assert(s[i].0 == k);
        }
        if has_key(s, k) {
            let i = index_of_key(s, k);
            assert(t[i].0 == k);
        }
    }
    assert forall|k: u64| has_key(s, k) implies #[trigger] as_map(t)[k] == text_map(as_map(s))[k] by {
        let i = index_of_key(s, k);
        lemma_entry_in_map(s, i);
        assert(t[i].0 == k);
        lemma_entry_in_map(t, i);
    }
    assert(as_map(t) =~= text_map(as_map(s)));
}

/// Finds the one position at which the field `f` stands in `dict`.
fn find_field(dict: &Dict, f: TicketField) -> (r: Result<usize, TicketError>)
    ensures
        match lookup(dict@, field_name(f)) {
            Lookup::Missing => r == Err::<usize, TicketError>(TicketError::MissingField(f)),
            Lookup::Duplicate => r == Err::<usize, TicketError>(TicketError::DuplicateField(f)),
            Lookup::At(i) => r == Ok::<usize, TicketError>(i as usize) && 0 <= i < dict@.len(),
        },
        r matches Ok(at) ==> at < dict@.len() && field_value(dict@, f) == Ok::<
            DictValueView,
            TicketError,
        >(dict@[at as int].1),
        r matches Err(e) ==> field_value(dict@, f) == Err::<DictValueView, TicketError>(e),
{
    let name = String::from_str(field_key(f));
    let n: usize = dict.entries.len();
    let ghost d = dict@;
    let mut found: Option<usize> = None;
    let mut i: usize = 0;
    while i < n
        invariant
            d == dict@,
            n == d.len(),
            n == dict.entries@.len(),
            i <= n,
            name@ == field_name(f),
            found is None ==> forall|j: int| 0 <= j < i ==> !occurs_at(d, name@, j),
            found matches Some(at) ==> at < i && occurs_at(d, name@, at as int) && forall|j: int|
                0 <= j < i && j != at ==> !occurs_at(d, name@, j),
        decreases n - i,
    {
        if dict.entries[i].0 == name {
            assert(occurs_at(d, name@, i as int));
            match found {
                Some(at) => {
                    assert(occurs_at(d, name@, at as int));
                    return Err(TicketError::DuplicateField(f));
                },
                None => {
                    found = Some(i);
                },
            }
        } else {
            assert(!occurs_at(d, name@, i as int));
        }
        i = i + 1;
    }
    match found {
        Some(at) => {
            assert(occurs_at(d, name@, at as int));
            Ok(at)
        },
        None => Err(TicketError::MissingField(f)),
    }
}

/// Reads the number that `dict` holds for the field `f`.
fn read_number(dict: &Dict, f: TicketField) -> (r: Result<u64, TicketError>)
    ensures
        r == number_field(dict@, f),
{
    match find_field(dict, f) {
        Err(e) => Err(e),
        Ok(at) => {
            assert(dict@[at as int].1 == dict.entries@[at as int].1@);
            match &dict.entries[at].1 {
                DictValue::Int(n) => Ok(*n),
                _ => Err(TicketError::WrongType(f)),
            }
        },
    }
}

/// Reads the text that `dict` holds for the field `f`.
fn read_text(dict: &Dict, f: TicketField) -> (r: Result<String, TicketError>)
    ensures
        match text_field(dict@, f) {
            Ok(s) => r matches Ok(text) && text@ == s,
            Err(e) => r == Err::<String, TicketError>(e),
        },
{
    match find_field(dict, f) {
        Err(e) => Err(e),
        Ok(at) => {
            assert(dict@[at as int].1 == dict.entries@[at as int].1@);
            match &dict.entries[at].1 {
                DictValue::Text(s) => Ok(s.clone()),
                _ => Err(TicketError::WrongType(f)),
            }
        },
    }
}

/// Reads the table that `dict` holds for the field `f`.
fn read_table(dict: &Dict, f: TicketField) -> (r: Result<&Vec<(u64, String)>, TicketError>)
    ensures
        match table_field(dict@, f) {
            Ok(t) => r matches Ok(table) && table_view(table@) == t,
            Err(e) => r == Err::<&Vec<(u64, String)>, TicketError>(e),
        },
{
    match find_field(dict, f) {
        Err(e) => Err(e),
        Ok(at) => {
            assert(dict@[at as int].1 == dict.entries@[at as int].1@);
            match &dict.entries[at].1 {
                DictValue::Table(t) => Ok(t),
                _ => Err(TicketError::WrongType(f)),
            }
        },
    }
}

/// The join ticket in the form in which an embedding program holds it.
#[derive(Debug, Clone, PartialEq, Eq)]
pub struct PyClusterJoinTicket {
    /// The ticket.
    pub inner: ClusterJoinTicket,
}

impl PyClusterJoinTicket {
    /// A ticket for the node that is to join as `reserved_id` at `raft_addr`,
    /// with the leader at `leader_addr` and the members that `peers` holds.
    ///
    /// Fails with `ReservedIdInPeers` exactly when `reserved_id` is
    /// registered in `peers`.
    pub fn new<C>(reserved_id: u64, raft_addr: String, leader_addr: String, peers: &PeerRegistry<C>)
        -> (r: Result<Self, TicketError>)
        requires
            peers.wf(),
        ensures
            peers@.contains_key(reserved_id) ==> r == Err::<Self, TicketError>(
                TicketError::ReservedIdInPeers,
            ),
            !peers@.contains_key(reserved_id) ==> r is Ok,
            r matches Ok(t) ==> t.inner.wf() && t.inner@ == (TicketView {
                reserved_id,
                self_address: raft_addr@,
                leader_address: leader_addr@,
                peer_table: address_map(peers@),
            }),
    {
        let table = peers.addresses();
        assert(table@.contains_key(reserved_id) == text_map(table@).contains_key(reserved_id));
        assert(peers@.contains_key(reserved_id) == address_map(peers@).contains_key(reserved_id));
        match ClusterJoinTicket::new(reserved_id, raft_addr, leader_addr, table) {
            Ok(inner) => Ok(PyClusterJoinTicket { inner }),
            Err(e) => Err(e),
        }
    }

    /// The identifier reserved for the joining node.
    pub fn get_reserved_id(&self) -> (id: u64)
        ensures
            id == self.inner@.reserved_id,
    {
        self.inner.reserved_id()
    }

    /// Writes the ticket as a dictionary: the reserved identifier, the two
    /// addresses and the peer table, under their names and in this order, the
    /// peer table in increasing order of identifier. Reading the dictionary
    /// back gives the ticket again.
    pub fn to_dict(&self) -> (d: Dict)
        requires
            self.inner.wf(),
        ensures
            is_encoding(d@, self.inner@),
            decode(d@) == Ok::<TicketView, TicketError>(self.inner@),
    {
        let peers = self.inner.peer_table();
        let n: usize = peers.len();
        let mut table: Vec<(u64, String)> = Vec::new();
        let mut i: usize = 0;
        while i < n
            invariant
                n == peers.seq().len(),
                i <= n,
                table@.len() == i,
                forall|j: int|
                    0 <= j < i ==> (#[trigger] table@[j]).0 == peers.seq()[j].0 && table@[j].1@
                        == peers.seq()[j].1@,
            decreases n - i,
        {
            table.push((peers.key_at(i), peers.value_at(i).clone()));
            i = i + 1;
        }
        proof {
            self.inner.lemma_wf();
            assert(table_view(table@) =~= table_view(peers.seq()));
            lemma_table_view(peers.seq());
        }
        let mut entries: Vec<(String, DictValue)> = Vec::new();
        entries.push(
            (
                String::from_str(field_key(TicketField::ReservedId)),
                DictValue::Int(self.inner.reserved_id()),
            ),
        );
        entries.push(
            (
                String::from_str(field_key(TicketField::SelfAddress)),
                DictValue::Text(self.inner.self_address().clone()),
            ),
        );
        entries.push(
            (
                String::from_str(field_key(TicketField::LeaderAddress)),
                DictValue::Text(self.inner.leader_address().clone()),
            ),
        );
        entries.push((String::from_str(field_key(TicketField::PeerTable)), DictValue::Table(table)));
        let d = Dict { entries };
        proof {
            lemma_decode_encoding(d@, self.inner@);
        }
        d
    }

    /// Reads a ticket from a dictionary.
    ///
    /// Succeeds exactly when the dictionary describes a ticket, and then
    /// gives that ticket; otherwise gives the reason.
    pub fn from_dict(dict: &Dict) -> (r: Result<Self, TicketError>)
        ensures
            match decode(dict@) {
                Ok(t) => r matches Ok(ticket) && ticket.inner.wf() && ticket.inner@ == t,
                Err(e) => r == Err::<Self, TicketError>(e),
            },
    {
        let ghost d = dict@;
        let reserved_id: u64 = match read_number(dict, TicketField::ReservedId) {
            Ok(n) => n,
            Err(e) => {
                return Err(e);
            },
        };
        let self_address: String = match read_text(dict, TicketField::SelfAddress) {
            Ok(s) => s,
            Err(e) => {
                return Err(e);
            },
        };
        let leader_address: String = match read_text(dict, TicketField::LeaderAddress) {
            Ok(s) => s,
            Err(e) => {
                return Err(e);
            },
        };
        let table: &Vec<(u64, String)> = match read_table(dict, TicketField::PeerTable) {
            Ok(t) => t,
            Err(e) => {
                return Err(e);
            },
        };
        let ghost tv = table_view(table@);
        let n: usize = table.len();
        let mut peers: IdMap<String> = IdMap::new();
        let mut i: usize = 0;
        assert(text_map(peers@) =~= as_map(tv.subrange(0, 0)));
        while i < n
            invariant
                d == dict@,
                number_field(d, TicketField::ReservedId) is Ok,
                text_field(d, TicketField::SelfAddress) is Ok,
                text_field(d, TicketField::LeaderAddress) is Ok,
                table_field(d, TicketField::PeerTable) == Ok::<Seq<(u64, Seq<char>)>, TicketError>(
                    tv,
                ),
                tv == table_view(table@),
                n == table@.len(),
                i <= n,
                peers.wf(),
                distinct_keys(tv.subrange(0, i as int)),
                text_map(peers@) == as_map(tv.subrange(0, i as int)),
            decreases n - i,
        {
            let id: u64 = table[i].0;
            let ghost before = tv.subrange(0, i as int);
            if peers.contains(id) {
                proof {
                    assert(text_map(peers@).contains_key(id));
                    assert(has_key(before, id));
                    let j = index_of_key(before, id);
                    assert(0 <= j < i && before[j].0 == id);
                    assert(before[j] == tv[j]);
                    assert(tv[j].0 == tv[i as int].0);
                    assert(!distinct_keys(tv));
                }
                return Err(TicketError::DuplicatePeer);
            }
            proof {
                assert(!text_map(peers@).contains_key(id));
                assert(!has_key(before, id));
                lemma_push_new(before, id, tv[i as int].1);
                assert(tv.subrange(0, i + 1) == before.push(tv[i as int]));
            }
            peers.insert(id, table[i].1.clone());
            assert(text_map(peers@) =~= as_map(before).insert(id, tv[i as int].1));
            i = i + 1;
        }
        assert(tv.subrange(0, n as int) == tv);
        assert(peers@.contains_key(reserved_id) == text_map(peers@).contains_key(reserved_id));
        assert(as_map(tv).contains_key(reserved_id) == has_key(tv, reserved_id));
        match ClusterJoinTicket::new(reserved_id, self_address, leader_address, peers) {
            Ok(inner) => Ok(PyClusterJoinTicket { inner }),
            Err(e) => Err(e),
        }
    }
}

/// Reading back the dictionary written for a valid ticket gives that ticket,
/// whole and unchanged.
pub proof fn lemma_decode_encoding(d: Seq<(Seq<char>, DictValueView)>, t: TicketView)
    requires
        t.valid(),
        is_encoding(d, t),
    ensures
        decode(d) == Ok::<TicketView, TicketError>(t),
{
    lemma_field_names_differ(TicketField::ReservedId, TicketField::SelfAddress);
    lemma_field_names_differ(TicketField::ReservedId, TicketField::LeaderAddress);
    lemma_field_names_differ(TicketField::ReservedId, TicketField::PeerTable);
    lemma_field_names_differ(TicketField::SelfAddress, TicketField::LeaderAddress);
    lemma_field_names_differ(TicketField::SelfAddress, TicketField::PeerTable);
    lemma_field_names_differ(TicketField::LeaderAddress, TicketField::PeerTable);
    assert(occurs_at(d, field_name(TicketField::ReservedId), 0));
    assert(occurs_at(d, field_name(TicketField::SelfAddress), 1));
    assert(occurs_at(d, field_name(TicketField::LeaderAddress), 2));
    assert(occurs_at(d, field_name(TicketField::PeerTable), 3));
    assert(lookup(d, field_name(TicketField::ReservedId)) == Lookup::At(0));
    assert(lookup(d, field_name(TicketField::SelfAddress)) == Lookup::At(1));
    assert(lookup(d, field_name(TicketField::LeaderAddress)) == Lookup::At(2));
    assert(lookup(d, field_name(TicketField::PeerTable)) == Lookup::At(3));
    let table = d[3].1->Table_0;
    lemma_increasing_distinct(table);
}

/// A ticket is written as one dictionary only: two dictionaries written for
/// the same ticket agree in every entry.
pub proof fn lemma_encoding_unique(
    a: Seq<(Seq<char>, DictValueView)>,
    b: Seq<(Seq<char>, DictValueView)>,
    t: TicketView,
)
    requires
        is_encoding(a, t),
        is_encoding(b, t),
    ensures
        a == b,
{
    lemma_increasing_unique(a[3].1->Table_0, b[3].1->Table_0);
    assert(a[3] == b[3]);
    assert(a =~= b);
}

/// Writing a ticket and reading it back loses nothing: two tickets whose
/// dictionaries agree are the same ticket.
pub proof fn lemma_encoding_injective(d: Seq<(Seq<char>, DictValueView)>, s: TicketView, t: TicketView)
    requires
        is_encoding(d, s),
        is_encoding(d, t),
    ensures
        s == t,
{
}

} // verus!
