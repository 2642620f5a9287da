//! The boundary between the consensus engine and the application: committed
//! log entries, and the state machine that consumes them.

use vstd::bytes::{
    lemma_auto_spec_u64_to_from_le_bytes, spec_u64_from_le_bytes, spec_u64_to_le_bytes,
    u64_from_le_bytes, u64_to_le_bytes,
};
use vstd::prelude::*;

verus! {

/// A committed log entry: a payload that only the application reads, and the
/// place that the consensus engine gave it in the log.
#[derive(Debug, Clone, PartialEq, Eq)]
pub struct LogEntry {
    /// The position of the entry in the log.
    pub index: u64,
    /// The term in which the entry was proposed.
    pub term: u64,
    /// The application's payload.
    pub payload: Vec<u8>,
}

/// A log entry as a mathematical value.
pub struct LogEntryView {
    /// The position of the entry in the log.
    pub index: u64,
    /// The term in which the entry was proposed.
    pub term: u64,
    /// The application's payload.
    pub payload: Seq<u8>,
}

impl View for LogEntry {
    type V = LogEntryView;

    open spec fn view(&self) -> LogEntryView {
        LogEntryView { index: self.index, term: self.term, payload: self.payload@ }
    }
}

/// The answer of a state machine that does not accept an entry.
#[derive(Debug, Clone, Copy, PartialEq, Eq, Structural)]
pub struct Rejected {}

/// What an application supplies to have its state replicated.
///
/// The three operations are described over an abstract state. `transition`
/// says what applying an entry does to a state: the state that follows and the
/// answer, or nothing where the application rejects the entry. It depends on
/// the entry and the state alone, so every member that applies the same
/// entries in the same order arrives at the same state. `decode` says which
/// state a snapshot holds. A snapshot taken of a state decodes to that state,
/// and restoring puts the machine in exactly the state decoded, whatever it
/// held before.
///
/// The abstract state and the two functions over it stand for nothing in
/// particular until a verified implementation says what they are.
pub trait AbstractStateMachine: Sized {
    /// The abstract state.
    type State;

    /// The state the machine is in.
    closed spec fn state(&self) -> Self::State {
        arbitrary()
    }

    /// What applying `entry` in `state` leads to.
    closed spec fn transition(state: Self::State, entry: LogEntryView) -> Option<(Self::State, Seq<u8>)> {
        arbitrary()
    }

    /// The state that `snapshot` holds, if it is a snapshot.
    closed spec fn decode(snapshot: Seq<u8>) -> Option<Self::State> {
        arbitrary()
    }

    /// Applies one committed entry.
    fn apply(&mut self, entry: &LogEntry) -> (r: Result<Vec<u8>, Rejected>)
        ensures
            match Self::transition(old(self).state(), entry@) {
                Some((next, answer)) => r matches Ok(bytes) && bytes@ == answer && final(self).state() == next,
                None => r is Err,
            },
    ;

    /// Writes the whole state as bytes, if the machine can do so now.
    fn snapshot(&self) -> (r: Option<Vec<u8>>)
        ensures
            r matches Some(bytes) ==> Self::decode(bytes@) == Some(self.state()),
    ;

    /// Replaces the whole state by the one that `snapshot` holds.
    fn restore(&mut self, snapshot: &Vec<u8>) -> (r: Result<(), Rejected>)
        ensures
            match Self::decode(snapshot@) {
                Some(state) => r is Ok && final(self).state() == state,
                None => r is Err,
            },
    ;
}

/// The simplest state machine: it counts the entries it has applied, and
/// takes every entry until the count can grow no more. Its answer to an entry
/// is the new count, and its snapshot the count, each as eight bytes with the
/// least significant first. For running a node where no application is at
/// hand.
#[derive(Debug, Clone, Copy, PartialEq, Eq)]
pub struct EntryCounter {
    count: u64,
}

impl EntryCounter {
    /// A counter that has applied nothing.
    pub fn new() -> (c: Self)
        ensures
            c.state() == 0,
    {
        EntryCounter { count: 0 }
    }

    /// The number of entries applied.
    pub fn count(&self) -> (n: u64)
        ensures
            n == self.state(),
    {
        self.count
    }
}

impl AbstractStateMachine for EntryCounter {
    type State = u64;

    closed spec fn state(&self) -> u64 {
        self.count
    }

    open spec fn transition(state: u64, entry: LogEntryView) -> Option<(u64, Seq<u8>)> {
        if state < u64::MAX {
            Some(((state + 1) as u64, spec_u64_to_le_bytes((state + 1) as u64)))
        } else {
            None
        }
    }

    open spec fn decode(snapshot: Seq<u8>) -> Option<u64> {
        if snapshot.len() == 8 {
            Some(spec_u64_from_le_bytes(snapshot))
        } else {
            None
        }
    }

    fn apply(&mut self, entry: &LogEntry) -> (r: Result<Vec<u8>, Rejected>) {
        if self.count < u64::MAX {
            self.count = self.count + 1;
            Ok(u64_to_le_bytes(self.count))
        } else {
            Err(Rejected {})
        }
    }

    /// The count as eight bytes, the least significant first. A counter can
    /// always give its snapshot.
    fn snapshot(&self) -> (r: Option<Vec<u8>>)
        ensures
            r matches Some(bytes) && bytes@ == spec_u64_to_le_bytes(self.state()),
    {
        proof {
            lemma_auto_spec_u64_to_from_le_bytes();
        }
        Some(u64_to_le_bytes(self.count))
    }

    fn restore(&mut self, snapshot: &Vec<u8>) -> (r: Result<(), Rejected>) {
        if snapshot.len() == 8 {
            self.count = u64_from_le_bytes(snapshot.as_slice());
            Ok(())
        } else {
            Err(Rejected {})
        }
    }
}

} // verus!
