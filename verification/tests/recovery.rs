use raftify::cli::exit_code;
use raftify::recovery::{
    debug_persisted, is_ordered, restore_snapshot_metadata, EntrySummary, PersistedReport,
    SnapshotMetadata,
};
use raftify::state_machine::LogEntry;

fn entry(index: u64, term: u64) -> LogEntry {
    LogEntry { index, term, payload: vec![index as u8; (index % 4) as usize] }
}

fn log(positions: &[(u64, u64)]) -> Vec<LogEntry> {
    positions.iter().map(|p| entry(p.0, p.1)).collect()
}

#[test]
fn empty_store_reports_nothing() {
    let report = debug_persisted(None, &vec![]);
    assert_eq!(
        report,
        PersistedReport { entries: vec![], metadata: SnapshotMetadata { index: 0, term: 0 } }
    );
    assert_eq!(report.entries.len(), 0);
    assert_eq!(report.metadata, SnapshotMetadata::default());
    assert_eq!(exit_code(&Ok(())), 0);
}

#[test]
fn debug_persisted_lists_every_entry() {
    let entries = vec![
        LogEntry { index: 4, term: 2, payload: vec![1, 2, 3] },
        LogEntry { index: 5, term: 2, payload: vec![] },
        LogEntry { index: 6, term: 3, payload: vec![9] },
    ];
    let report = debug_persisted(Some(SnapshotMetadata { index: 3, term: 1 }), &entries);
    assert_eq!(report.metadata, SnapshotMetadata { index: 3, term: 1 });
    assert_eq!(
        report.entries,
        vec![
            EntrySummary { index: 4, term: 2, size: 3 },
            EntrySummary { index: 5, term: 2, size: 0 },
            EntrySummary { index: 6, term: 3, size: 1 },
        ]
    );
}

#[test]
fn default_metadata_is_empty() {
    assert_eq!(SnapshotMetadata::default(), SnapshotMetadata { index: 0, term: 0 });
}

#[test]
fn restore_follows_the_unbroken_run() {
    let entries = log(&[(1, 1), (2, 1), (3, 2)]);
    assert_eq!(
        restore_snapshot_metadata(None, &entries),
        SnapshotMetadata { index: 3, term: 2 }
    );
}

#[test]
fn restore_starts_from_the_stored_metadata() {
    let entries = log(&[(1, 1), (2, 1), (3, 2), (4, 2), (5, 3)]);
    assert_eq!(
        restore_snapshot_metadata(Some(SnapshotMetadata { index: 3, term: 9 }), &entries),
        SnapshotMetadata { index: 5, term: 3 }
    );
}

#[test]
fn restore_stops_at_a_gap() {
    let entries = log(&[(1, 1), (2, 1), (4, 2), (5, 2)]);
    assert_eq!(
        restore_snapshot_metadata(None, &entries),
        SnapshotMetadata { index: 2, term: 1 }
    );
    assert_eq!(
        restore_snapshot_metadata(Some(SnapshotMetadata { index: 3, term: 1 }), &entries),
        SnapshotMetadata { index: 5, term: 2 }
    );
}

#[test]
fn restore_without_following_entries_keeps_the_metadata() {
    let stored = SnapshotMetadata { index: 7, term: 3 };
    assert_eq!(restore_snapshot_metadata(Some(stored), &vec![]), stored);
    assert_eq!(restore_snapshot_metadata(Some(stored), &log(&[(1, 1), (2, 1), (7, 3)])), stored);
    assert_eq!(restore_snapshot_metadata(Some(stored), &log(&[(9, 3), (10, 3)])), stored);
    assert_eq!(
        restore_snapshot_metadata(None, &vec![]),
        SnapshotMetadata { index: 0, term: 0 }
    );
}

#[test]
fn restore_at_the_last_index_does_not_wrap() {
    let stored = SnapshotMetadata { index: u64::MAX, term: 3 };
    assert_eq!(restore_snapshot_metadata(Some(stored), &log(&[(0, 1), (1, 1)])), stored);
    let before = SnapshotMetadata { index: u64::MAX - 1, term: 3 };
    assert_eq!(
        restore_snapshot_metadata(Some(before), &log(&[(u64::MAX, 4)])),
        SnapshotMetadata { index: u64::MAX, term: 4 }
    );
}

#[test]
fn restore_twice_gives_the_same_metadata() {
    let logs = [
        log(&[]),
        log(&[(1, 1), (2, 1), (3, 2)]),
        log(&[(1, 1), (2, 1), (4, 2), (5, 2)]),
        log(&[(3, 1), (4, 1), (5, 2), (9, 2)]),
    ];
    let starts = [
        None,
        Some(SnapshotMetadata { index: 2, term: 1 }),
        Some(SnapshotMetadata { index: 3, term: 1 }),
        Some(SnapshotMetadata { index: 8, term: 2 }),
    ];
    for entries in logs.iter() {
        assert!(is_ordered(entries));
        for start in starts.iter() {
            let once = restore_snapshot_metadata(*start, entries);
            let twice = restore_snapshot_metadata(Some(once), entries);
            assert_eq!(once, twice);
        }
    }
}

#[test]
fn ordered_logs_are_told_apart() {
    assert!(is_ordered(&log(&[])));
    assert!(is_ordered(&log(&[(5, 1)])));
    assert!(is_ordered(&log(&[(1, 1), (2, 1), (9, 1)])));
    assert!(!is_ordered(&log(&[(1, 1), (1, 1)])));
    assert!(!is_ordered(&log(&[(1, 1), (3, 1), (2, 1)])));
}
