//! What a node keeps on disk, and how its state comes back from there.

use vstd::prelude::*;
use vstd::string::StringExecFns;

use crate::log::{LogView, RaftLog};
use crate::message::{LogEntry, NodeId};
use crate::state::{PersistentState, PersistentView};
use crate::text::decimal;

verus! {

/// The form in which `PersistentState` is stored. It is kept apart from that
/// type so that the storage format can evolve on its own.
#[derive(Debug)]
pub struct StoredState {
    pub current_term: u64,
    pub voted_for: Option<u64>,
    pub log_entries: Vec<LogEntry>,
}

/// The contents of a `StoredState`.
#[verifier::ext_equal]
pub struct StoredView {
    pub current_term: u64,
    pub voted_for: Option<u64>,
    pub log_entries: Seq<LogEntry>,
}

impl View for StoredState {
    type V = StoredView;

    open spec fn view(&self) -> StoredView {
        StoredView {
            current_term: self.current_term,
            voted_for: self.voted_for,
            log_entries: self.log_entries@,
        }
    }
}

/// The stored form of a node's durable state: all live entries of its log.
pub open spec fn stored_form(state: PersistentView) -> StoredView {
    StoredView {
        current_term: state.current_term,
        voted_for: state.voted_for,
        log_entries: state.log.entries,
    }
}

/// The index and term at which a log starts, given what its snapshot covers.
pub open spec fn base_of(snapshot_base: Option<(u64, u64)>) -> (u64, u64) {
    match snapshot_base {
        Some(base) => base,
        None => (0, 0),
    }
}

/// Which of the stored entries go with a snapshot that ends at `index` with an entry
/// of `term`. A node that stopped between writing a snapshot and writing its log
/// left entries behind that the snapshot covers. They are left out; those after
/// them stay if the last covered entry is the snapshot's, and are none of this log
/// otherwise.
pub open spec fn entries_after(entries: Seq<LogEntry>, index: u64, term: u64) -> Seq<LogEntry> {
    if entries.len() == 0 || entries[0].index > index {
        entries
    } else {
        let at = index - entries[0].index;
        if at < entries.len() && entries[at].term == term {
            entries.skip(at + 1)
        } else {
            Seq::empty()
        }
    }
}

/// The durable state that a stored form stands for.
pub open spec fn restored_form(
    stored: StoredView,
    snapshot_base: Option<(u64, u64)>,
) -> PersistentView {
    let (index, term) = base_of(snapshot_base);
    PersistentView {
        current_term: stored.current_term,
        voted_for: stored.voted_for,
        log: LogView {
            entries: entries_after(stored.log_entries, index, term),
            snapshot_index: index,
            snapshot_term: term,
        },
    }
}

/// The stored form of `state`.
pub fn store(state: &PersistentState) -> (stored: StoredState)
    requires
        state.log.wf(),
    ensures
        stored@ == stored_form(state@),
{
    let entries = state.log.entries_after(0);
    let mut log_entries: Vec<LogEntry> = Vec::new();
    let mut i: usize = 0;
    while i < entries.len()
        invariant
            i <= entries@.len(),
            log_entries@ =~= entries@.take(i as int),
        decreases entries@.len() - i,
    {
        log_entries.push(entries[i].clone());
        i = i + 1;
    }
    assert(log_entries@ =~= state@.log.entries);
    StoredState { current_term: state.current_term, voted_for: state.voted_for, log_entries }
}

/// The position of the first stored entry that goes with the snapshot.
fn first_after(entries: &Vec<LogEntry>, index: u64, term: u64) -> (first: usize)
    ensures
        first <= entries@.len(),
        entries@.skip(first as int) == entries_after(entries@, index, term),
{
    let len = entries.len();
    if len == 0 || entries[0].index > index {
        assert(entries@.skip(0) =~= entries@);
        return 0;
    }
    let at: u64 = index - entries[0].index;
    if at < len as u64 && entries[at as usize].term == term {
        at as usize + 1
    } else {
        assert(entries@.skip(len as int) =~= Seq::empty());
        len
    }
}

/// Whether the stored entries, but for those that the snapshot covers, follow the
/// end of the snapshot without a gap.
pub fn follows_snapshot(stored: &StoredState, snapshot_base: Option<(u64, u64)>) -> (follows: bool)
    ensures
        follows == restored_form(stored@, snapshot_base).log.wf(),
{
    let (base, term): (u64, u64) = match snapshot_base {
        Some(base) => base,
        None => (0, 0),
    };
    let ghost log = restored_form(stored@, snapshot_base).log;
    let first = first_after(&stored.log_entries, base, term);
    let mut last = base;
    let mut i: usize = first;
    while i < stored.log_entries.len()
        invariant
            first <= i <= stored.log_entries@.len(),
            log == restored_form(stored@, snapshot_base).log,
            log.entries == stored.log_entries@.skip(first as int),
            log.snapshot_index == base,
            last == base + (i - first),
            forall|j: int| 0 <= j < i - first ==> (#[trigger] log.entries[j]).index == base + 1 + j,
        decreases stored.log_entries@.len() - i,
    {
        let index = stored.log_entries[i].index;
        assert(log.entries[i - first].index == index);
        if last == u64::MAX || index != last + 1 {
            return false;
        }
        last = index;
        i = i + 1;
    }
    true
}

/// The durable state that `stored` stands for.
///
/// `snapshot_base` is the last index and term that the snapshot covers: after a
/// compaction the stored entries start above index 1.
pub fn restore(stored: StoredState, snapshot_base: Option<(u64, u64)>) -> (state: PersistentState)
    requires
        restored_form(stored@, snapshot_base).log.wf(),
    ensures
        state@ == restored_form(stored@, snapshot_base),
        state.log.wf(),
{
    let (index, term): (u64, u64) = match snapshot_base {
        Some(base) => base,
        None => (0, 0),
    };
    let ghost whole = restored_form(stored@, snapshot_base).log;
    let first = first_after(&stored.log_entries, index, term);
    let mut log = RaftLog::new_with_snapshot(index, term);
    let mut i: usize = first;
    while i < stored.log_entries.len()
        invariant
            first <= i <= stored.log_entries@.len(),
            whole.wf(),
            whole.entries == stored.log_entries@.skip(first as int),
            log.wf(),
            log@ =~= (LogView { entries: whole.entries.take(i - first), ..whole }),
        decreases stored.log_entries@.len() - i,
    {
        assert(whole.entries[i - first] == stored.log_entries@[i as int]);
        assert(whole.entries[i - first].index == whole.snapshot_index + 1 + (i - first));
        log = log.append(stored.log_entries[i].clone());
        assert(whole.entries.take(i - first + 1) =~= whole.entries.take(i - first).push(
            whole.entries[i - first],
        ));
        i = i + 1;
    }
    assert(whole.entries.take(whole.entries.len() as int) =~= whole.entries);
    PersistentState {
        current_term: stored.current_term,
        voted_for: stored.voted_for,
        log,
    }
}

/// The durable state of a node: what its state file holds, or the initial state
/// if there is none.
pub fn recovered(stored: Option<StoredState>, snapshot_base: Option<(u64, u64)>) -> (state:
    PersistentState)
    requires
        stored is Some ==> restored_form(stored->0@, snapshot_base).log.wf(),
    ensures
        state.log.wf(),
        state@ == match stored {
            Some(file) => restored_form(file@, snapshot_base),
            None => PersistentView::initial(),
        },
{
    match stored {
        Some(file) => restore(file, snapshot_base),
        None => PersistentState::new(),
    }
}

/// A snapshot of the key-value state machine, as it stands on disk.
///
/// It is stored apart from the durable state, so that a large snapshot does not
/// slow down each write of log entries.
#[derive(Debug)]
pub struct SnapshotFile {
    /// Last log index covered by this snapshot.
    pub last_included_index: u64,
    /// Term of that entry.
    pub last_included_term: u64,
    /// Key-value pairs at the time of the snapshot.
    pub kv_data: Vec<(String, String)>,
}

/// The name of a node's file: `node-<id>` and the extension.
pub open spec fn file_name(id: NodeId, extension: Seq<char>) -> Seq<char> {
    "node-"@ + crate::text::decimal_text(id as nat) + extension
}

/// The name of the file with a node's durable state.
pub fn state_file_name(id: NodeId) -> (name: String)
    ensures
        name@ == file_name(id, ".state"@),
{
    String::from_str("node-").concat(decimal(id).as_str()).concat(".state")
}

/// The name of the file with a node's snapshot.
pub fn snapshot_file_name(id: NodeId) -> (name: String)
    ensures
        name@ == file_name(id, ".snapshot"@),
{
    String::from_str("node-").concat(decimal(id).as_str()).concat(".snapshot")
}

/// What is stored comes back: the stored form of a state, restored on top of the
/// snapshot that its log starts from, is that state.
pub proof fn stored_state_comes_back(state: PersistentView)
    requires
        state.log.wf(),
    ensures
        restored_form(
            stored_form(state),
            Some((state.log.snapshot_index, state.log.snapshot_term)),
        ) == state,
        state.log.snapshot_index == 0 && state.log.snapshot_term == 0 ==> restored_form(
            stored_form(state),
            None,
        ) == state,
{
    if state.log.entries.len() > 0 {
        assert(state.log.entries[0].index == state.log.snapshot_index + 1);
    }
}

/// A node that stops after a snapshot has been written and before the log has been
/// comes back with the log that it was about to write: without the entries that the
/// snapshot covers, and with those that follow it if the log agrees with it.
pub proof fn newer_snapshot_is_taken_up(state: PersistentView, index: u64, term: u64)
    requires
        state.log.wf(),
        state.log.snapshot_index < index,
    ensures
        restored_form(stored_form(state), Some((index, term))) == (PersistentView {
            log: if state.log.holds(index as int) && state.log.term_at(index as int) == term {
                state.log.compacted(index)
            } else {
                LogView::based_at(index, term)
            },
            ..state
        }),
        restored_form(stored_form(state), Some((index, term))).log.wf(),
{
    let log = state.log;
    let restored = restored_form(stored_form(state), Some((index, term)));
    if log.entries.len() > 0 {
        assert(log.entries[0].index == log.snapshot_index + 1);
    }
    if log.holds(index as int) && log.term_at(index as int) == term {
        assert(restored.log.entries =~= log.after(index as int));
        assert forall|i: int| 0 <= i < restored.log.entries.len() implies (#[trigger]
        restored.log.entries[i]).index == index + 1 + i by {
            assert(restored.log.entries[i] == log.entries[index - log.snapshot_index + i]);
        }
    } else {
        assert(restored.log.entries =~= Seq::empty());
    }
}

/// The files of a node are named after it and after what they hold.
pub proof fn files_are_named_after_their_node(
    id: NodeId,
    number: String,
    state: String,
    snapshot: String,
)
    requires
        call_ensures(crate::text::decimal, (id,), number),
        call_ensures(state_file_name, (id,), state),
        call_ensures(snapshot_file_name, (id,), snapshot),
    ensures
        state@ == "node-"@ + number@ + ".state"@,
        snapshot@ == "node-"@ + number@ + ".snapshot"@,
{
}

/// Whether these are the stored entries that go with a snapshot that ends at `index` in
/// `term`. Where the first one comes after the snapshot, they are all of them. Where the
/// snapshot's last entry is among them, they are those after it. Otherwise they are none.
pub open spec fn go_with(
    kept: Seq<LogEntry>,
    entries: Seq<LogEntry>,
    index: u64,
    term: u64,
) -> bool {
    let at = index - entries[0].index;
    if entries.len() == 0 || entries[0].index > index {
        kept == entries
    } else if at < entries.len() && entries[at].term == term {
        kept == entries.skip(at + 1)
    } else {
        kept == Seq::<LogEntry>::empty()
    }
}

/// What is on disk gives a log that starts at the snapshot's end, with the stored
/// entries that go with it, and with the stored term and vote. It is told beforehand
/// whether that log has a gap.
pub proof fn logs_are_restored_on_their_snapshot(
    stored: StoredState,
    index: u64,
    term: u64,
    base: Option<(u64, u64)>,
    follows: bool,
    state: PersistentState,
    recovered_state: PersistentState,
)
    requires
        base == Some((index, term)) || (base is None && index == 0 && term == 0),
        call_ensures(follows_snapshot, (&stored, base), follows),
        call_ensures(restore, (stored, base), state),
        call_ensures(recovered, (Some(stored), base), recovered_state),
    ensures
        go_with(state.log@.entries, stored.log_entries@, index, term),
        state.log@.snapshot_index == index,
        state.log@.snapshot_term == term,
        state.current_term == stored.current_term,
        state.voted_for == stored.voted_for,
        recovered_state@ == state@,
        follows <==> forall|i: int|
            0 <= i < state.log@.entries.len() ==> (#[trigger] state.log@.entries[i]).index == index
                + 1 + i,
{
}

/// A node without a state file has never run, as far as it knows.
pub proof fn nothing_stored_is_nothing_known(base: Option<(u64, u64)>, state: PersistentState)
    requires
        call_ensures(recovered, (None, base), state),
    ensures
        state.current_term == 0,
        state.voted_for is None,
        state.log@.entries.len() == 0,
        state.log@.snapshot_index == 0,
        state.log@.snapshot_term == 0,
{
}

} // verus!
