//! The replicated log.

use vstd::prelude::*;
use vstd::slice::slice_subrange;

use crate::message::LogEntry;

verus! {

/// The highest `i` with `lo < i <= hi` that satisfies `p`, or `lo` if none does.
pub open spec fn highest(p: spec_fn(int) -> bool, lo: int, hi: int) -> int
    decreases hi - lo,
{
    if hi <= lo {
        lo
    } else if p(hi) {
        hi
    } else {
        highest(p, lo, hi - 1)
    }
}

/// `highest` is what its name says: nothing above it satisfies `p`, and it
/// satisfies `p` itself unless it is the lower end.
pub proof fn highest_is_highest(p: spec_fn(int) -> bool, lo: int, hi: int)
    requires
        lo <= hi,
    ensures
        lo <= highest(p, lo, hi) <= hi,
        highest(p, lo, hi) > lo ==> p(highest(p, lo, hi)),
        forall|i: int| highest(p, lo, hi) < i <= hi ==> !(#[trigger] p(i)),
    decreases hi - lo,
{
    if hi > lo && !p(hi) {
        highest_is_highest(p, lo, hi - 1);
    }
}

/// The lesser of two numbers.
pub open spec fn lesser(a: int, b: int) -> int {
    if a <= b {
        a
    } else {
        b
    }
}

/// The contents of a `RaftLog`: the live entries, and the index and term of the
/// last entry that a snapshot has replaced.
#[verifier::ext_equal]
pub struct LogView {
    pub entries: Seq<LogEntry>,
    pub snapshot_index: u64,
    pub snapshot_term: u64,
}

impl LogView {
    /// The log without entries that starts after `index`.
    pub open spec fn based_at(index: u64, term: u64) -> LogView {
        LogView { entries: Seq::empty(), snapshot_index: index, snapshot_term: term }
    }

    /// The entries are numbered without a gap, starting right after the snapshot.
    pub open spec fn wf(self) -> bool {
        forall|i: int|
            0 <= i < self.entries.len() ==> (#[trigger] self.entries[i]).index
                == self.snapshot_index + 1 + i
    }

    /// The index of the last entry, or of the snapshot if no entry is left.
    pub open spec fn last_index(self) -> int {
        self.snapshot_index + self.entries.len()
    }

    /// The term of the last entry, or of the snapshot if no entry is left.
    pub open spec fn last_term(self) -> u64 {
        if self.entries.len() == 0 {
            self.snapshot_term
        } else {
            self.entries.last().term
        }
    }

    /// Whether the entry at `index` is in the log and not compacted away.
    pub open spec fn holds(self, index: int) -> bool {
        self.snapshot_index < index <= self.last_index()
    }

    /// The entry at an index that the log holds.
    pub open spec fn at(self, index: int) -> LogEntry {
        self.entries[index - self.snapshot_index - 1]
    }

    /// The entry at `index`, if the log holds it.
    pub open spec fn get(self, index: int) -> Option<LogEntry> {
        if self.holds(index) {
            Some(self.at(index))
        } else {
            None
        }
    }

    /// The term of the entry at `index`: known for the live entries and for the
    /// last one of the snapshot, and 0 elsewhere.
    pub open spec fn term_at(self, index: int) -> u64 {
        if index == 0 {
            0
        } else if index == self.snapshot_index {
            self.snapshot_term
        } else if self.holds(index) {
            self.at(index).term
        } else {
            0
        }
    }

    /// How many of the live entries have an index of at most `index`.
    pub open spec fn count_up_to(self, index: int) -> int {
        if index <= self.snapshot_index {
            0
        } else if index >= self.last_index() {
            self.entries.len() as int
        } else {
            index - self.snapshot_index
        }
    }

    /// The live entries with an index above `lo` and up to `hi`.
    pub open spec fn between(self, lo: int, hi: int) -> Seq<LogEntry> {
        if lo < hi {
            self.entries.subrange(self.count_up_to(lo), self.count_up_to(hi))
        } else {
            Seq::empty()
        }
    }

    /// The live entries with an index above `index`.
    pub open spec fn after(self, index: int) -> Seq<LogEntry> {
        self.entries.skip(self.count_up_to(index))
    }

    pub open spec fn push(self, entry: LogEntry) -> LogView {
        LogView { entries: self.entries.push(entry), ..self }
    }

    /// The log without its live entries from `from` on.
    pub open spec fn truncated(self, from: int) -> LogView {
        LogView { entries: self.entries.take(self.count_up_to(from - 1)), ..self }
    }

    /// The log with everything up to `index` replaced by a snapshot; nothing
    /// changes where the snapshot already reaches that far.
    pub open spec fn compacted(self, index: u64) -> LogView {
        if index <= self.snapshot_index {
            self
        } else {
            LogView {
                entries: self.after(index as int),
                snapshot_index: index,
                snapshot_term: self.term_at(index as int),
            }
        }
    }

    /// Whether the entry at `index` is one that the snapshot has replaced.
    pub open spec fn covers(self, index: int) -> bool {
        index <= self.snapshot_index
    }

    /// Whether the log can take `entry` without a gap: `entry` is at most the
    /// next one.
    pub open spec fn takes(self, entry: LogEntry) -> bool {
        entry.index <= self.last_index() + 1
    }

    /// The log once it holds `entry`. An entry that the snapshot covers is in the
    /// log already. An entry of the same term at that index is the same entry and
    /// stays, with all that follows it; one of another term conflicts, and goes
    /// with all that follows it.
    pub open spec fn with_entry(self, entry: LogEntry) -> LogView {
        if self.covers(entry.index as int) {
            self
        } else if self.holds(entry.index as int) && self.at(entry.index as int).term
            == entry.term {
            self
        } else {
            self.truncated(entry.index as int).push(entry)
        }
    }

    /// Whether the log can take `entries` one after the other.
    pub open spec fn takes_all(self, entries: Seq<LogEntry>) -> bool
        decreases entries.len(),
    {
        entries.len() == 0 || (self.takes(entries[0]) && self.with_entry(entries[0]).takes_all(
            entries.skip(1),
        ))
    }

    /// The log once it holds `entries`, taken one after the other.
    pub open spec fn with_entries(self, entries: Seq<LogEntry>) -> LogView
        decreases entries.len(),
    {
        if entries.len() == 0 {
            self
        } else {
            self.with_entry(entries[0]).with_entries(entries.skip(1))
        }
    }

    /// The consistency check of an AppendEntries request: the entry before the
    /// first new one is the same here and at the leader.
    pub open spec fn matches(self, prev_index: int, prev_term: u64) -> bool {
        prev_index == 0 || self.term_at(prev_index) == prev_term
    }

    /// The index at which a run of entries of one term that ends at `index` starts.
    pub open spec fn run_start(self, index: int) -> int {
        highest(|i: int| self.term_at(i) != self.term_at(index), 0, index) + 1
    }

    /// Whether a log that ends with an entry of this term at this index is at
    /// least as up to date as this one.
    pub open spec fn no_newer_than(self, last_term: u64, last_index: int) -> bool {
        last_term > self.last_term() || (last_term == self.last_term() && last_index
            >= self.last_index())
    }
}

/// An immutable replicated log with support for log compaction.
///
/// All mutation methods return a *new* `RaftLog`; the old one is never
/// modified.
///
/// Log indices are 1-based (index 0 is a sentinel "before the log begins").
///
/// After a snapshot is taken, entries up to `snapshot_last_index` are
/// discarded. The snapshot metadata acts as a virtual "index 0" for the
/// remaining entries.
#[derive(Debug)]
pub struct RaftLog {
    entries: Vec<LogEntry>,
    /// Index of the last entry included in the most recent snapshot (0 = none).
    snapshot_last_index: u64,
    /// Term of that entry (needed for log consistency checks after compaction).
    snapshot_last_term: u64,
}

impl View for RaftLog {
    type V = LogView;

    closed spec fn view(&self) -> LogView {
        LogView {
            entries: self.entries@,
            snapshot_index: self.snapshot_last_index,
            snapshot_term: self.snapshot_last_term,
        }
    }
}

impl Default for RaftLog {
    fn default() -> (log: Self)
        ensures
            log.wf(),
            log@ == LogView::based_at(0, 0),
    {
        Self::new()
    }
}

impl Clone for RaftLog {
    fn clone(&self) -> (copy: Self)
        ensures
            copy@ == self@,
    {
        let entries = self.entries.clone();
        assert(entries@ =~= self.entries@);
        RaftLog {
            entries,
            snapshot_last_index: self.snapshot_last_index,
            snapshot_last_term: self.snapshot_last_term,
        }
    }
}

impl RaftLog {
    /// The entries are numbered without a gap, starting right after the snapshot.
    pub open spec fn wf(&self) -> bool {
        self@.wf()
    }

    pub fn new() -> (log: Self)
        ensures
            log.wf(),
            log@ == LogView::based_at(0, 0),
    {
        Self { entries: Vec::new(), snapshot_last_index: 0, snapshot_last_term: 0 }
    }

    /// Create a log whose base starts at an already-snapshotted point.
    /// Used on restart when loading state after a snapshot.
    pub fn new_with_snapshot(last_included_index: u64, last_included_term: u64) -> (log: Self)
        ensures
            log.wf(),
            log@ == LogView::based_at(last_included_index, last_included_term),
    {
        Self {
            entries: Vec::new(),
            snapshot_last_index: last_included_index,
            snapshot_last_term: last_included_term,
        }
    }

    // ── Snapshot accessors ─────────────────────────────────────────────────

    pub fn snapshot_last_index(&self) -> (index: u64)
        ensures
            index == self@.snapshot_index,
    {
        self.snapshot_last_index
    }

    pub fn snapshot_last_term(&self) -> (term: u64)
        ensures
            term == self@.snapshot_term,
    {
        self.snapshot_last_term
    }

    // ── Queries ────────────────────────────────────────────────────────────

    /// The index of the last entry, or `snapshot_last_index` if no entries
    /// remain after compaction.
    pub fn last_index(&self) -> (index: u64)
        requires
            self.wf(),
        ensures
            index == self@.last_index(),
    {
        let len = self.entries.len();
        if len == 0 {
            self.snapshot_last_index
        } else {
            assert(self@.entries[len - 1].index == self@.snapshot_index + 1 + (len - 1));
            self.entries[len - 1].index
        }
    }

    /// The term of the last entry, or `snapshot_last_term` if no entries
    /// remain after compaction.
    pub fn last_term(&self) -> (term: u64)
        ensures
            term == self@.last_term(),
    {
        let len = self.entries.len();
        if len == 0 {
            self.snapshot_last_term
        } else {
            self.entries[len - 1].term
        }
    }

    /// Returns the entry at `index`, or `None` if out of range or compacted away.
    pub fn get(&self, index: u64) -> (entry: Option<&LogEntry>)
        requires
            self.wf(),
        ensures
            match entry {
                Some(e) => self@.get(index as int) == Some(*e),
                None => self@.get(index as int) is None,
            },
    {
        match self.index_to_pos(index) {
            Some(pos) => Some(&self.entries[pos]),
            None => None,
        }
    }

    /// The term of the entry at `index`: `snapshot_last_term` if it is the last
    /// one of the snapshot, the entry's term if it is in the live log, and 0
    /// otherwise.
    pub fn term_at(&self, index: u64) -> (term: u64)
        requires
            self.wf(),
        ensures
            term == self@.term_at(index as int),
    {
        if index == 0 {
            return 0;
        }
        if index == self.snapshot_last_index {
            return self.snapshot_last_term;
        }
        match self.get(index) {
            Some(entry) => entry.term,
            None => 0,
        }
    }

    /// All entries with index > `after_index`.
    pub fn entries_after(&self, after_index: u64) -> (entries: &[LogEntry])
        requires
            self.wf(),
            after_index < u64::MAX,
        ensures
            entries@ == self@.after(after_index as int),
    {
        let len = self.entries.len();
        match self.index_to_pos(after_index + 1) {
            Some(pos) => slice_subrange(self.entries.as_slice(), pos, len),
            None => {
                if after_index >= self.last_index() {
                    slice_subrange(self.entries.as_slice(), len, len)
                } else {
                    self.entries.as_slice()
                }
            },
        }
    }

    /// A copy of the live entries with an index above `lo` and up to `hi`.
    pub fn entries_between(&self, lo: u64, hi: u64) -> (entries: Vec<LogEntry>)
        requires
            self.wf(),
        ensures
            entries@ == self@.between(lo as int, hi as int),
    {
        let mut entries: Vec<LogEntry> = Vec::new();
        let mut i: usize = 0;
        while i < self.entries.len()
            invariant
                i <= self.entries.len(),
                self.wf(),
                lo < hi ==> entries@ =~= self@.entries.subrange(
                    lesser(self@.count_up_to(lo as int), i as int),
                    lesser(self@.count_up_to(hi as int), i as int),
                ),
                lo >= hi ==> entries@.len() == 0,
            decreases self.entries.len() - i,
        {
            let index = self.entries[i].index;
            assert(self@.entries[i as int].index == self@.snapshot_index + 1 + i);
            if lo < index && index <= hi {
                entries.push(self.entries[i].clone());
            }
            i += 1;
        }
        assert(entries@ =~= self@.between(lo as int, hi as int));
        entries
    }

    pub fn is_empty(&self) -> (empty: bool)
        ensures
            empty == (self@.entries.len() == 0),
    {
        self.entries.len() == 0
    }

    pub fn len(&self) -> (len: usize)
        ensures
            len == self@.entries.len(),
    {
        self.entries.len()
    }

    // ── Mutations (return new RaftLog) ─────────────────────────────────────

    /// Returns a new log with `entry` appended, which must be the next one.
    pub fn append(&self, entry: LogEntry) -> (log: Self)
        requires
            self.wf(),
            entry.index == self@.last_index() + 1,
        ensures
            log.wf(),
            log@ == self@.push(entry),
    {
        let mut log = self.clone();
        log.entries.push(entry);
        log
    }

    /// Returns a new log with all entries having index >= `from_index` removed.
    ///
    /// Used by followers to resolve log conflicts before appending the
    /// leader's entries.
    pub fn truncate_from(&self, from_index: u64) -> (log: Self)
        requires
            self.wf(),
        ensures
            log.wf(),
            log@ == self@.truncated(from_index as int),
    {
        let mut log = self.clone();
        if from_index <= self.snapshot_last_index {
            log.entries.truncate(0);
        } else if let Some(pos) = self.index_to_pos(from_index) {
            log.entries.truncate(pos);
        }
        assert(log@.entries =~= self@.truncated(from_index as int).entries);
        log
    }

    /// Returns a new log with all entries up to and including `index` removed.
    ///
    /// The snapshot metadata is updated to record `index` as the new base.
    /// Entries strictly after `index` are preserved.
    pub fn compact_up_to(&self, index: u64) -> (log: Self)
        requires
            self.wf(),
        ensures
            log.wf(),
            log@ == self@.compacted(index),
    {
        if index <= self.snapshot_last_index {
            return self.clone();
        }
        let new_term = self.term_at(index);
        let mut entries: Vec<LogEntry> = Vec::new();
        let mut i: usize = 0;
        while i < self.entries.len()
            invariant
                0 <= i <= self.entries.len(),
                self.wf(),
                index > self.snapshot_last_index,
                entries@ =~= self@.entries.subrange(
                    if self@.count_up_to(index as int) <= i {
                        self@.count_up_to(index as int)
                    } else {
                        i as int
                    },
                    i as int,
                ),
            decreases self.entries.len() - i,
        {
            assert(self@.entries[i as int].index == self@.snapshot_index + 1 + i);
            if self.entries[i].index > index {
                entries.push(self.entries[i].clone());
            }
            i += 1;
        }
        let log = RaftLog { entries, snapshot_last_index: index, snapshot_last_term: new_term };
        assert(log@.entries =~= self@.after(index as int));
        assert forall|j: int| 0 <= j < log@.entries.len() implies (#[trigger] log@.entries[j]).index
            == log@.snapshot_index + 1 + j by {
            let k = j + self@.count_up_to(index as int);
            assert(log@.entries[j] == self@.entries[k]);
        }
        log
    }

    /// Returns the log that holds `entries`, taken one after the other, or `None`
    /// if one of them would leave a gap in the log. Entries that the snapshot
    /// covers are skipped.
    ///
    /// An entry that conflicts with an existing one (same index but different
    /// terms) replaces it and all that follow it.
    pub fn merge_entries(&self, entries: &Vec<LogEntry>) -> (log: Option<Self>)
        requires
            self.wf(),
        ensures
            match log {
                Some(l) => {
                    &&& self@.takes_all(entries@)
                    &&& l.wf()
                    &&& l@ == self@.with_entries(entries@)
                },
                None => !self@.takes_all(entries@),
            },
    {
        let mut log = self.clone();
        let mut i: usize = 0;
        assert(entries@.skip(0) =~= entries@);
        while i < entries.len()
            invariant
                i <= entries@.len(),
                log.wf(),
                self@.takes_all(entries@) == log@.takes_all(entries@.skip(i as int)),
                self@.with_entries(entries@) == log@.with_entries(entries@.skip(i as int)),
            decreases entries@.len() - i,
        {
            let ghost rest = entries@.skip(i as int);
            assert(rest[0] == entries@[i as int]);
            assert(rest.skip(1) =~= entries@.skip(i + 1));
            let index = entries[i].index;
            if index > log.snapshot_last_index {
                match log.get(index) {
                    Some(existing) => {
                        if existing.term != entries[i].term {
                            log = log.truncate_from(index).append(entries[i].clone());
                        }
                    },
                    None => {
                        if index - 1 != log.last_index() {
                            return None;
                        }
                        assert(log@.truncated(index as int) =~= log@);
                        log = log.append(entries[i].clone());
                    },
                }
            }
            i += 1;
        }
        assert(entries@.skip(i as int).len() == 0);
        Some(log)
    }

    // ── Private helpers ────────────────────────────────────────────────────

    /// Convert a 1-based log index to a 0-based `entries` array position.
    fn index_to_pos(&self, index: u64) -> (pos: Option<usize>)
        requires
            self.wf(),
        ensures
            match pos {
                Some(p) => self@.holds(index as int) && p == index - self@.snapshot_index - 1,
                None => !self@.holds(index as int),
            },
    {
        if self.entries.len() == 0 || index == 0 {
            return None;
        }
        assert(self@.entries[0].index == self@.snapshot_index + 1);
        let first = self.entries[0].index;
        if index < first {
            return None;
        }
        let offset: u64 = index - first;
        if offset < self.entries.len() as u64 {
            Some(offset as usize)
        } else {
            None
        }
    }
}

// ── Laws ───────────────────────────────────────────────────────────────────

/// Whether an entry with this index is among the live ones.
pub open spec fn has_index(entries: Seq<LogEntry>, index: int) -> bool {
    exists|k: int| 0 <= k < entries.len() && (#[trigger] entries[k]).index == index
}

/// A new log is empty and starts where it is told to.
pub proof fn new_logs_are_empty(log: RaftLog, based: RaftLog, index: u64, term: u64)
    requires
        call_ensures(RaftLog::new, (), log),
        call_ensures(RaftLog::new_with_snapshot, (index, term), based),
    ensures
        log@.entries.len() == 0,
        log@.snapshot_index == 0 && log@.snapshot_term == 0,
        based@.entries.len() == 0,
        based@.snapshot_index == index && based@.snapshot_term == term,
{
}

/// A log ends with its last entry, or with its snapshot if it has no entry, and it is
/// as long as it has entries.
pub proof fn logs_end_with_their_last_entry(
    log: &RaftLog,
    last_index: u64,
    last_term: u64,
    len: usize,
    empty: bool,
    base_index: u64,
    base_term: u64,
)
    requires
        log.wf(),
        call_ensures(RaftLog::last_index, (log,), last_index),
        call_ensures(RaftLog::last_term, (log,), last_term),
        call_ensures(RaftLog::len, (log,), len),
        call_ensures(RaftLog::is_empty, (log,), empty),
        call_ensures(RaftLog::snapshot_last_index, (log,), base_index),
        call_ensures(RaftLog::snapshot_last_term, (log,), base_term),
    ensures
        len == log@.entries.len(),
        empty <==> log@.entries.len() == 0,
        base_index == log@.snapshot_index,
        base_term == log@.snapshot_term,
        last_index == base_index + len,
        empty ==> last_index == base_index && last_term == base_term,
        !empty ==> last_index == log@.entries.last().index && last_term
            == log@.entries.last().term,
{
    if log@.entries.len() > 0 {
        assert(log@.entries[log@.entries.len() - 1].index == log@.snapshot_index
            + log@.entries.len());
    }
}

/// An entry is found by its index, and nothing else is; its term is the one that the
/// log has at that index. The last index of the snapshot keeps its term, and the log
/// knows of no other term.
pub proof fn entries_are_found_by_index(
    log: &RaftLog,
    index: u64,
    found: Option<&LogEntry>,
    term: u64,
)
    requires
        log.wf(),
        call_ensures(RaftLog::get, (log, index), found),
        call_ensures(RaftLog::term_at, (log, index), term),
    ensures
        match found {
            Some(entry) => {
                &&& entry.index == index
                &&& log@.entries.contains(*entry)
                &&& term == entry.term
            },
            None => {
                &&& !has_index(log@.entries, index as int)
                &&& index > 0 && index == log@.snapshot_index ==> term == log@.snapshot_term
                &&& index == 0 || index != log@.snapshot_index ==> term == 0
            },
        },
{
    let entries = log@.entries;
    if found is None && has_index(entries, index as int) {
        let k = choose|k: int| 0 <= k < entries.len() && (#[trigger] entries[k]).index == index;
        assert(entries[k].index == log@.snapshot_index + 1 + k);
    }
    if found is Some {
        let k = index - log@.snapshot_index - 1;
        assert(entries[k].index == index);
    }
}

/// The entries after an index are the end of the log: those with a higher index, all of
/// them and in their order. Those between two indices are the ones above the lower and
/// up to the upper one.
pub proof fn entries_come_out_in_order(
    log: &RaftLog,
    lo: u64,
    hi: u64,
    after: &[LogEntry],
    between: Vec<LogEntry>,
)
    requires
        log.wf(),
        call_ensures(RaftLog::entries_after, (log, lo), after),
        call_ensures(RaftLog::entries_between, (log, lo, hi), between),
    ensures
        ({
            let skipped = log@.entries.len() - after@.len();
            &&& skipped >= 0
            &&& after@ == log@.entries.skip(skipped)
            &&& forall|k: int|
                0 <= k < log@.entries.len() ==> ((#[trigger] log@.entries[k]).index > lo <==> k
                    >= skipped)
        }),
        forall|k: int|
            0 <= k < between@.len() ==> lo < (#[trigger] between@[k]).index <= hi && after@[k]
                == between@[k],
        between@.len() <= after@.len(),
        forall|k: int| between@.len() <= k < after@.len() ==> (#[trigger] after@[k]).index > hi,
{
    let entries = log@.entries;
    let skipped = log@.count_up_to(lo as int);
    assert(after@ =~= entries.skip(skipped));
    assert forall|k: int| 0 <= k < entries.len() implies ((#[trigger] entries[k]).index > lo <==> k
        >= skipped) by {
        assert(entries[k].index == log@.snapshot_index + 1 + k);
    }
    assert forall|k: int| 0 <= k < between@.len() implies lo < (#[trigger] between@[k]).index <= hi
        && after@[k] == between@[k] by {
        assert(entries[skipped + k].index == log@.snapshot_index + 1 + skipped + k);
        assert(between@[k] == entries[skipped + k]);
    }
    assert forall|k: int| between@.len() <= k < after@.len() implies (#[trigger] after@[k]).index
        > hi by {
        assert(after@[k] == entries[skipped + k]);
        assert(entries[skipped + k].index == log@.snapshot_index + 1 + skipped + k);
    }
}

/// An appended entry is the last one, and all others are as they were.
pub proof fn appended_entries_come_last(log: &RaftLog, entry: LogEntry, after: RaftLog)
    requires
        call_ensures(RaftLog::append, (log, entry), after),
    ensures
        after@.entries.len() == log@.entries.len() + 1,
        after@.entries.last() == entry,
        forall|k: int| 0 <= k < log@.entries.len() ==> #[trigger] after@.entries[k]
            == log@.entries[k],
        after@.snapshot_index == log@.snapshot_index,
        after@.snapshot_term == log@.snapshot_term,
{
}

/// Truncation takes away the entries from an index on, and no others.
pub proof fn truncation_removes_the_tail(log: &RaftLog, from: u64, after: RaftLog)
    requires
        log.wf(),
        call_ensures(RaftLog::truncate_from, (log, from), after),
    ensures
        after@.entries.len() <= log@.entries.len(),
        after@.entries == log@.entries.take(after@.entries.len() as int),
        forall|k: int|
            0 <= k < log@.entries.len() ==> ((#[trigger] log@.entries[k]).index < from <==> k
                < after@.entries.len()),
        after@.snapshot_index == log@.snapshot_index,
        after@.snapshot_term == log@.snapshot_term,
{
    assert(after@.entries =~= log@.entries.take(after@.entries.len() as int));
    assert forall|k: int| 0 <= k < log@.entries.len() implies ((#[trigger] log@.entries[k]).index
        < from <==> k < after@.entries.len()) by {
        assert(log@.entries[k].index == log@.snapshot_index + 1 + k);
    }
}

/// Compaction takes away the entries up to an index, and no others, and keeps the index
/// and the term of the last one. A log that starts later already is left alone.
pub proof fn compaction_keeps_the_rest(log: &RaftLog, index: u64, after: RaftLog)
    requires
        log.wf(),
        call_ensures(RaftLog::compact_up_to, (log, index), after),
    ensures
        index <= log@.snapshot_index ==> after@ == log@,
        index > log@.snapshot_index ==> {
            let removed = log@.entries.len() - after@.entries.len();
            &&& removed >= 0
            &&& after@.entries == log@.entries.skip(removed)
            &&& forall|k: int|
                0 <= k < log@.entries.len() ==> ((#[trigger] log@.entries[k]).index > index <==> k
                    >= removed)
            &&& after@.snapshot_index == index
            &&& forall|k: int|
                0 <= k < log@.entries.len() && (#[trigger] log@.entries[k]).index == index
                    ==> after@.snapshot_term == log@.entries[k].term
        },
{
    if index > log@.snapshot_index {
        let removed = log@.count_up_to(index as int);
        assert(after@.entries =~= log@.entries.skip(removed));
        assert forall|k: int| 0 <= k < log@.entries.len() implies ((#[trigger]
        log@.entries[k]).index > index <==> k >= removed) by {
            assert(log@.entries[k].index == log@.snapshot_index + 1 + k);
        }
        assert forall|k: int|
            0 <= k < log@.entries.len() && (#[trigger] log@.entries[k]).index == index implies
            after@.snapshot_term == log@.entries[k].term by {
            assert(log@.entries[k].index == log@.snapshot_index + 1 + k);
        }
    }
}

/// What one entry makes of a log that takes it. An entry that the snapshot covers, and
/// one that the log has with the same term, change nothing. Any other entry goes to its
/// place and is the last one: what stood there and after it is gone, and what stood
/// before it stays. An entry that would leave a gap is refused.
pub proof fn merged_entries_find_their_place(
    log: &RaftLog,
    entries: &Vec<LogEntry>,
    after: Option<RaftLog>,
)
    requires
        log.wf(),
        entries@.len() == 1,
        call_ensures(RaftLog::merge_entries, (log, entries), after),
    ensures
        ({
            let entry = entries@[0];
            let at = entry.index - log@.snapshot_index - 1;
            if at > log@.entries.len() {
                after is None
            } else {
                &&& after is Some
                &&& after->0@.snapshot_index == log@.snapshot_index
                &&& after->0@.snapshot_term == log@.snapshot_term
                &&& after->0@.entries == if at < 0 || (at < log@.entries.len()
                    && log@.entries[at].term == entry.term) {
                    log@.entries
                } else {
                    log@.entries.take(at).push(entry)
                }
            }
        }),
{
    let entry = entries@[0];
    let rest = entries@.skip(1);
    assert(rest =~= Seq::empty());
    let next = log@.with_entry(entry);
    assert(next.takes_all(rest));
    assert(next.with_entries(rest) == next);
    assert(log@.takes_all(entries@) == log@.takes(entry));
    assert(log@.with_entries(entries@) == next);
    if let Some(merged) = after {
        let at = entry.index - log@.snapshot_index - 1;
        if 0 <= at && at <= log@.entries.len() && !(at < log@.entries.len()
            && log@.entries[at].term == entry.term) {
            assert(merged@.entries =~= log@.entries.take(at).push(entry));
        }
    }
}

/// Entries are merged one after the other: to merge some and then more is to merge
/// them all.
pub proof fn merging_goes_entry_by_entry(
    log: &RaftLog,
    some: &Vec<LogEntry>,
    more: &Vec<LogEntry>,
    all: &Vec<LogEntry>,
    between: RaftLog,
    after: Option<RaftLog>,
    at_once: Option<RaftLog>,
)
    requires
        all@ == some@ + more@,
        call_ensures(RaftLog::merge_entries, (log, some), Some(between)),
        call_ensures(RaftLog::merge_entries, (&between, more), after),
        call_ensures(RaftLog::merge_entries, (log, all), at_once),
    ensures
        after is Some <==> at_once is Some,
        after is Some ==> after->0@ == at_once->0@,
{
    merges_split(log@, some@, more@);
}

proof fn merges_split(log: LogView, some: Seq<LogEntry>, more: Seq<LogEntry>)
    ensures
        log.takes_all(some) ==> (log.takes_all(some + more) <==> log.with_entries(some).takes_all(
            more,
        )),
        log.with_entries(some + more) == log.with_entries(some).with_entries(more),
    decreases some.len(),
{
    if some.len() == 0 {
        assert(some + more =~= more);
    } else {
        assert((some + more)[0] == some[0]);
        assert((some + more).skip(1) =~= some.skip(1) + more);
        merges_split(log.with_entry(some[0]), some.skip(1), more);
    }
}

/// A copy of a log is that log.
pub proof fn copied_logs_are_alike(log: &RaftLog, copy: RaftLog)
    requires
        call_ensures(RaftLog::clone, (log,), copy),
    ensures
        copy@.entries == log@.entries,
        copy@.snapshot_index == log@.snapshot_index,
        copy@.snapshot_term == log@.snapshot_term,
{
}

} // verus!
