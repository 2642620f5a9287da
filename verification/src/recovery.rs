//! Offline recovery: what the tools that inspect and repair a node's
//! persisted log compute, once the log has been read.
//!
//! The persisted entries are taken in the order in which the store keeps
//! them, which is the order of their indices.

use vstd::prelude::*;
use crate::state_machine::{LogEntry, LogEntryView};

verus! {

/// The record of the last log position that a snapshot covers.
#[derive(Debug, Clone, Copy, PartialEq, Eq, Structural)]
pub struct SnapshotMetadata {
    /// The index of the last entry covered.
    pub index: u64,
    /// The term of that entry.
    pub term: u64,
}

impl SnapshotMetadata {
    /// The metadata of a store that holds no snapshot.
    pub open spec fn empty() -> SnapshotMetadata {
        SnapshotMetadata { index: 0, term: 0 }
    }
}

impl Default for SnapshotMetadata {
    /// The metadata of a store that holds no snapshot.
    fn default() -> (m: Self)
        ensures
            m == SnapshotMetadata::empty(),
    {
        SnapshotMetadata { index: 0, term: 0 }
    }
}

/// The entries of `s` as mathematical values, in the same order.
pub open spec fn log_view(s: Seq<LogEntry>) -> Seq<LogEntryView> {
    Seq::new(s.len(), |i: int| s[i]@)
}

/// Whether the indices of `entries` strictly increase, as they do in a
/// persisted log.
pub open spec fn log_ordered(entries: Seq<LogEntryView>) -> bool {
    forall|i: int, j: int|
        0 <= i < j < entries.len() ==> (#[trigger] entries[i]).index < (#[trigger] entries[j]).index
}

/// Whether `entry` is the one that follows the position `at` in the log.
pub open spec fn follows(at: SnapshotMetadata, entry: LogEntryView) -> bool {
    entry.index == at.index + 1
}

/// The position reached from `at` on meeting `entry`: that of the entry if it
/// is the next one in the log, and `at` otherwise.
pub open spec fn advance(at: SnapshotMetadata, entry: LogEntryView) -> SnapshotMetadata {
    if follows(at, entry) {
        SnapshotMetadata { index: entry.index, term: entry.term }
    } else {
        at
    }
}

/// The metadata recomputed from `start` by going through `entries` once, from
/// the first to the last: the position of the last entry of the unbroken run
/// that follows `start`.
pub open spec fn recomputed(start: SnapshotMetadata, entries: Seq<LogEntryView>) -> SnapshotMetadata
    decreases entries.len(),
{
    if entries.len() == 0 {
        start
    } else {
        advance(recomputed(start, entries.drop_last()), entries.last())
    }
}

/// The metadata to start from: what the store holds, or that of an empty
/// store where it holds none.
pub open spec fn starting_point(stored: Option<SnapshotMetadata>) -> SnapshotMetadata {
    match stored {
        Some(m) => m,
        None => SnapshotMetadata::empty(),
    }
}

/// Recomputing never moves the metadata back.
pub proof fn lemma_recomputed_not_before(start: SnapshotMetadata, entries: Seq<LogEntryView>)
    ensures
        recomputed(start, entries).index >= start.index,
    decreases entries.len(),
{
    if entries.len() > 0 {
        lemma_recomputed_not_before(start, entries.drop_last());
    }
}

/// In an ordered log, no entry follows the position that recomputing ends at.
proof fn lemma_nothing_follows(start: SnapshotMetadata, entries: Seq<LogEntryView>)
    requires
        log_ordered(entries),
    ensures
        forall|k: int|
            0 <= k < entries.len() ==> !follows(recomputed(start, entries), #[trigger] entries[k]),
    decreases entries.len(),
{
    if entries.len() > 0 {
        let front = entries.drop_last();
        let last = entries.last();
        assert(log_ordered(front)) by {
            assert forall|i: int, j: int| 0 <= i < j < front.len() implies (#[trigger] front[i]).index
                < (#[trigger] front[j]).index by {
                assert(front[i] == entries[i]);
                assert(front[j] == entries[j]);
            }
        }
        lemma_nothing_follows(start, front);
        let before = recomputed(start, front);
        let after = recomputed(start, entries);
        assert forall|k: int| 0 <= k < entries.len() implies !follows(after, #[trigger] entries[k]) by {
            if k < entries.len() - 1 {
                assert(entries[k] == front[k]);
                if follows(before, last) {
                    assert(entries[k].index < entries[entries.len() - 1].index);
                }
            }
        }
    }
}

/// Where no entry follows a position, recomputing from it stays there.
proof fn lemma_stays(at: SnapshotMetadata, entries: Seq<LogEntryView>)
    requires
        forall|k: int| 0 <= k < entries.len() ==> !follows(at, #[trigger] entries[k]),
    ensures
        recomputed(at, entries) == at,
    decreases entries.len(),
{
    if entries.len() > 0 {
        let front = entries.drop_last();
        assert forall|k: int| 0 <= k < front.len() implies !follows(at, #[trigger] front[k]) by {
            assert(front[k] == entries[k]);
        }
        lemma_stays(at, front);
        assert(!follows(at, entries[entries.len() - 1]));
    }
}

/// Recomputing is idempotent: done again on the same ordered log, from the
/// metadata that the first run gave, it gives that metadata again.
pub proof fn lemma_recomputed_idempotent(start: SnapshotMetadata, entries: Seq<LogEntryView>)
    requires
        log_ordered(entries),
    ensures
        recomputed(recomputed(start, entries), entries) == recomputed(start, entries),
{
    lemma_nothing_follows(start, entries);
    lemma_stays(recomputed(start, entries), entries);
}

/// Decides whether the indices of `entries` strictly increase.
pub fn is_ordered(entries: &Vec<LogEntry>) -> (r: bool)
    ensures
        r == log_ordered(log_view(entries@)),
{
    let n: usize = entries.len();
    let ghost log = log_view(entries@);
    if n < 2 {
        return true;
    }
    let mut i: usize = 1;
    while i < n
        invariant
            log == log_view(entries@),
            n == entries@.len(),
            1 <= i <= n,
            forall|a: int, b: int| 0 <= a < b < i ==> (#[trigger] log[a]).index < (#[trigger] log[b]).index,
        decreases n - i,
    {
        if entries[i - 1].index >= entries[i].index {
            assert(!(log[i - 1].index < log[i as int].index));
            return false;
        }
        assert forall|a: int, b: int| 0 <= a < b < i + 1 implies (#[trigger] log[a]).index < (
        #[trigger] log[b]).index by {
            if b == i && a < i - 1 {
                assert(log[a].index < log[i - 1].index);
            }
        }
        i = i + 1;
    }
    true
}

/// Recomputes the snapshot metadata of a node from its persisted entries.
///
/// Starts from the metadata that the store holds, or from that of an empty
/// store where it holds none or none that can be used, and goes forward
/// through the entries for as long as each is the next one in the log. On an
/// ordered log, doing so again from the result gives the result again.
pub fn restore_snapshot_metadata(stored: Option<SnapshotMetadata>, entries: &Vec<LogEntry>) -> (r:
    SnapshotMetadata)
    ensures
        r == recomputed(starting_point(stored), log_view(entries@)),
        r.index >= starting_point(stored).index,
        log_ordered(log_view(entries@)) ==> recomputed(r, log_view(entries@)) == r,
{
    proof {
        lemma_recomputed_not_before(starting_point(stored), log_view(entries@));
        if log_ordered(log_view(entries@)) {
            lemma_recomputed_idempotent(starting_point(stored), log_view(entries@));
        }
    }
    let mut at: SnapshotMetadata = match stored {
        Some(m) => m,
        None => SnapshotMetadata::default(),
    };
    let ghost start = at;
    let ghost log = log_view(entries@);
    let n: usize = entries.len();
    let mut i: usize = 0;
    assert(log.subrange(0, 0) =~= Seq::<LogEntryView>::empty());
    while i < n
        invariant
            log == log_view(entries@),
            n == entries@.len(),
            i <= n,
            at == recomputed(start, log.subrange(0, i as int)),
        decreases n - i,
    {
        proof {
            let next = log.subrange(0, i + 1);
            assert(next.drop_last() == log.subrange(0, i as int));
            assert(next.last() == entries@[i as int]@);
        }
        if at.index < u64::MAX && entries[i].index == at.index + 1 {
            at = SnapshotMetadata { index: entries[i].index, term: entries[i].term };
        }
        i = i + 1;
    }
    assert(log.subrange(0, n as int) == log);
    at
}

/// What the store holds about one entry.
#[derive(Debug, Clone, Copy, PartialEq, Eq, Structural)]
pub struct EntrySummary {
    /// The index of the entry.
    pub index: u64,
    /// The term of the entry.
    pub term: u64,
    /// The length of its payload, in bytes.
    pub size: usize,
}

/// The summary of one entry.
pub open spec fn summary_of(entry: LogEntryView) -> EntrySummary {
    EntrySummary { index: entry.index, term: entry.term, size: entry.payload.len() as usize }
}

/// What a store holds: every persisted entry, and the snapshot metadata.
#[derive(Debug, Clone, PartialEq, Eq)]
pub struct PersistedReport {
    /// One summary for each persisted entry, in the order of the log.
    pub entries: Vec<EntrySummary>,
    /// The stored snapshot metadata, or that of an empty store.
    pub metadata: SnapshotMetadata,
}

/// Lists what a store holds, without changing anything.
pub fn debug_persisted(stored: Option<SnapshotMetadata>, entries: &Vec<LogEntry>) -> (r:
    PersistedReport)
    ensures
        r.metadata == starting_point(stored),
        r.entries@.len() == entries@.len(),
        forall|i: int| 0 <= i < entries@.len() ==> #[trigger] r.entries@[i] == summary_of(entries@[i]@),
{
    let metadata: SnapshotMetadata = match stored {
        Some(m) => m,
        None => SnapshotMetadata::default(),
    };
    let n: usize = entries.len();
    let mut listed: Vec<EntrySummary> = Vec::new();
    let mut i: usize = 0;
    while i < n
        invariant
            n == entries@.len(),
            i <= n,
            listed@.len() == i,
            forall|j: int| 0 <= j < i ==> #[trigger] listed@[j] == summary_of(entries@[j]@),
        decreases n - i,
    {
        listed.push(
            EntrySummary {
                index: entries[i].index,
                term: entries[i].term,
                size: entries[i].payload.len(),
            },
        );
        i = i + 1;
    }
    PersistedReport { entries: listed, metadata }
}

} // verus!
