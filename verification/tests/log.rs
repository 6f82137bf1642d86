use raft_kv::log::RaftLog;
use raft_kv::message::{Command, LogEntry};

fn entry(index: u64, term: u64) -> LogEntry {
    LogEntry { index, term, command: Command::Noop }
}

fn log_with(entries: &[(u64, u64)]) -> RaftLog {
    entries.iter().fold(RaftLog::new(), |l, &(idx, term)| l.append(entry(idx, term)))
}

fn terms(log: &RaftLog) -> Vec<(u64, u64)> {
    log.entries_after(0).iter().map(|e| (e.index, e.term)).collect()
}

#[test]
fn empty_log_sentinels() {
    let log = RaftLog::new();
    assert_eq!(log.last_index(), 0);
    assert_eq!(log.last_term(), 0);
    assert!(log.is_empty());
}

#[test]
fn append_and_query() {
    let log = log_with(&[(1, 1), (2, 1), (3, 2)]);
    assert_eq!(log.last_index(), 3);
    assert_eq!(log.last_term(), 2);
    assert_eq!(log.get(2).unwrap().index, 2);
    assert_eq!(log.term_at(1), 1);
    assert_eq!(log.term_at(99), 0); // out of range
}

#[test]
fn truncate_removes_tail() {
    let log = log_with(&[(1, 1), (2, 1), (3, 2), (4, 2)]);
    let truncated = log.truncate_from(3);
    assert_eq!(truncated.last_index(), 2);
    assert!(truncated.get(3).is_none());
}

#[test]
fn truncate_beyond_end_is_noop() {
    let log = log_with(&[(1, 1)]);
    let unchanged = log.truncate_from(99);
    assert_eq!(unchanged.last_index(), 1);
}

#[test]
fn entries_after_returns_suffix() {
    let log = log_with(&[(1, 1), (2, 1), (3, 2)]);
    let after = log.entries_after(1);
    assert_eq!(after.len(), 2);
    assert_eq!(after[0].index, 2);
}

#[test]
fn entries_after_past_end_is_empty() {
    let log = log_with(&[(1, 1)]);
    assert!(log.entries_after(1).is_empty());
}

#[test]
fn log_immutability_original_unchanged() {
    let original = log_with(&[(1, 1)]);
    let _new = original.append(entry(2, 1));
    assert_eq!(original.last_index(), 1); // original untouched
}

// ── Snapshots and compaction ───────────────────────────────────────────────

#[test]
fn compact_removes_prefix_and_updates_base() {
    let log = log_with(&[(1, 1), (2, 1), (3, 2), (4, 2), (5, 3)]);
    let compacted = log.compact_up_to(3);
    assert_eq!(compacted.snapshot_last_index(), 3);
    assert_eq!(compacted.snapshot_last_term(), 2);
    assert_eq!(compacted.last_index(), 5);
    assert!(compacted.get(1).is_none());
    assert!(compacted.get(3).is_none()); // compacted away
    assert!(compacted.get(4).is_some());
    assert!(compacted.get(5).is_some());
    assert_eq!(compacted.len(), 2);
}

#[test]
fn compact_all_entries_leaves_empty_log_with_base() {
    let log = log_with(&[(1, 1), (2, 2), (3, 2)]);
    let compacted = log.compact_up_to(3);
    assert_eq!(compacted.snapshot_last_index(), 3);
    assert_eq!(compacted.snapshot_last_term(), 2);
    assert_eq!(compacted.last_index(), 3); // the base of the snapshot
    assert_eq!(compacted.last_term(), 2);
    assert!(compacted.is_empty());
}

#[test]
fn compact_noop_when_already_snapshotted() {
    let log = log_with(&[(1, 1), (2, 1)]);
    let c1 = log.compact_up_to(2);
    let c2 = c1.compact_up_to(1); // below the current snapshot
    assert_eq!(c2.snapshot_last_index(), 2);
}

#[test]
fn append_after_compaction_uses_snapshot_base() {
    let log = log_with(&[(1, 1), (2, 1), (3, 2)]);
    let compacted = log.compact_up_to(3);
    let extended = compacted.append(entry(4, 2));
    assert_eq!(extended.last_index(), 4);
    assert_eq!(extended.len(), 1);
}

#[test]
fn term_at_snapshot_boundary() {
    let log = log_with(&[(1, 1), (2, 2), (3, 3)]);
    let compacted = log.compact_up_to(2);
    // The boundary has the snapshot's term.
    assert_eq!(compacted.term_at(2), 2);
    // What is before the snapshot is gone.
    assert_eq!(compacted.term_at(1), 0);
    // What is after it is still there.
    assert_eq!(compacted.term_at(3), 3);
}

#[test]
fn new_with_snapshot_has_correct_base() {
    let log = RaftLog::new_with_snapshot(50, 3);
    assert_eq!(log.last_index(), 50);
    assert_eq!(log.last_term(), 3);
    assert!(log.is_empty());
    // Can append at 51.
    let log = log.append(entry(51, 3));
    assert_eq!(log.last_index(), 51);
}

#[test]
fn entries_after_compacted_prefix() {
    let log = log_with(&[(1, 1), (2, 1), (3, 2), (4, 2)]);
    let compacted = log.compact_up_to(2);
    // All that remains.
    let after = compacted.entries_after(0);
    assert_eq!(after.len(), 2);
    assert_eq!(after[0].index, 3);
}

// ── Merging ────────────────────────────────────────────────────────────────

#[test]
fn merging_replaces_a_conflicting_tail() {
    let log = log_with(&[(1, 1), (2, 1), (3, 1)]);
    let merged = log.merge_entries(&vec![entry(2, 2), entry(3, 2)]).unwrap();
    assert_eq!(terms(&merged), vec![(1, 1), (2, 2), (3, 2)]);
}

#[test]
fn merging_held_entries_changes_nothing() {
    let log = log_with(&[(1, 1), (2, 1), (3, 1)]);
    let merged = log.merge_entries(&vec![entry(1, 1), entry(2, 1)]).unwrap();
    assert_eq!(terms(&merged), vec![(1, 1), (2, 1), (3, 1)]);
}

#[test]
fn merging_refuses_a_gap() {
    let log = log_with(&[(1, 1)]);
    assert!(log.merge_entries(&vec![entry(3, 1)]).is_none());
}

#[test]
fn entries_between_takes_the_upper_end() {
    let log = log_with(&[(1, 1), (2, 1), (3, 2), (4, 2)]);
    let between = log.entries_between(1, 3);
    assert_eq!(between.iter().map(|e| e.index).collect::<Vec<u64>>(), vec![2, 3]);
    assert!(log.entries_between(3, 3).is_empty());
    assert!(log.entries_between(3, 1).is_empty());
}

#[test]
fn truncate_from_zero_or_compacted_removes_all() {
    let log = log_with(&[(1, 1), (2, 1), (3, 2)]);
    assert!(log.truncate_from(0).is_empty());
    let compacted = log.compact_up_to(2);
    let truncated = compacted.truncate_from(2);
    assert!(truncated.is_empty());
    assert_eq!(truncated.snapshot_last_index(), 2);
    assert_eq!(truncated.snapshot_last_term(), 1);
    assert_eq!(compacted.truncate_from(3).last_index(), 2);
    assert_eq!(compacted.truncate_from(4).last_index(), 3);
}

#[test]
fn merged_entries_skip_the_snapshot() {
    let compacted = log_with(&[(1, 1), (2, 1), (3, 2)]).compact_up_to(2);
    let merged = compacted.merge_entries(&vec![entry(1, 1), entry(2, 1), entry(3, 2), entry(4, 2)]);
    let merged = merged.unwrap();
    assert_eq!(merged.snapshot_last_index(), 2);
    assert_eq!(merged.last_index(), 4);
    assert_eq!(merged.len(), 2);
}
